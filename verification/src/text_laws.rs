//! What the text functions come to.
use vstd::prelude::*;

verus! {

/// The digit that a character stands for.
pub open spec fn digit_value(c: char) -> int {
    c as int - '0' as int
}

/// The number that decimal digits stand for, read from the left.
pub open spec fn read_decimal(s: Seq<char>) -> int
    decreases s.len(),
{
    if s.len() == 0 {
        0
    } else {
        10 * read_decimal(s.drop_last()) + digit_value(s.last())
    }
}

/// A number in decimal reads back as itself, is made of digits only, and has no
/// zero in front.
pub proof fn law_decimal_reads_back(n: nat)
    ensures
        read_decimal(crate::text::decimal(n)) == n,
        crate::text::decimal(n).len() > 0,
        forall|i: int|
            0 <= i < crate::text::decimal(n).len() ==> '0' <= #[trigger] crate::text::decimal(n)[i]
                <= '9',
        crate::text::decimal(n)[0] == '0' ==> n == 0,
    decreases n,
{
    let d = crate::text::decimal(n);
    if n < 10 {
        reveal_with_fuel(read_decimal, 2);
        assert(d.drop_last() =~= seq![]);
    } else {
        law_decimal_reads_back(n / 10);
        let head = crate::text::decimal(n / 10);
        assert(d.drop_last() =~= head);
        assert(d[0] == head[0]);
        assert forall|i: int| 0 <= i < d.len() implies '0' <= #[trigger] d[i] <= '9' by {
            if i < head.len() {
                assert(d[i] == head[i]);
            }
        }
    }
}

/// What is appended as a number reads back as that number, behind what was there.
pub proof fn law_appended_number_reads_back(n: u64)
    ensures
        forall|out: &mut String|
            #[trigger] call_ensures(crate::text::push_decimal, (out, n), ()) ==> {
                let (before, after) = ((*out)@, (*final(out))@);
                &&& before.len() < after.len()
                &&& after.take(before.len() as int) == before
                &&& read_decimal(after.skip(before.len() as int)) == n
            },
{
    law_decimal_reads_back(n as nat);
    assert forall|out: &mut String|
        #[trigger] call_ensures(crate::text::push_decimal, (out, n), ()) implies {
        let (before, after) = ((*out)@, (*final(out))@);
        &&& before.len() < after.len()
        &&& after.take(before.len() as int) == before
        &&& read_decimal(after.skip(before.len() as int)) == n
    } by {
        let (before, after) = ((*out)@, (*final(out))@);
        assert(after == before + crate::text::decimal(n as nat));
        assert(after.take(before.len() as int) =~= before);
        assert(after.skip(before.len() as int) =~= crate::text::decimal(n as nat));
    }
}

/// A number on its own reads back, and two texts are joined in order.
pub proof fn law_numbers_and_joins(n: u64, number: String, a: &str, b: &str, both: String, i: int)
    requires
        call_ensures(crate::text::decimal_text, (n,), number),
        call_ensures(crate::text::joined, (a, b), both),
    ensures
        read_decimal(number@) == n,
        both@.len() == a@.len() + b@.len(),
        0 <= i < a@.len() ==> both@[i] == a@[i],
        0 <= i < b@.len() ==> both@[a@.len() + i] == b@[i],
{
    law_decimal_reads_back(n as nat);
}

/// Two characters count as the same exactly if they are, or if they are the
/// capital and the small form of one ASCII letter, which stand 32 apart.
pub proof fn law_case_is_ignored(a: &str, b: &str, r: bool)
    requires
        call_ensures(crate::text::eq_ignore_ascii_case, (a, b), r),
    ensures
        r <==> a@.len() == b@.len() && forall|i: int|
            0 <= i < a@.len() ==> same_but_case(#[trigger] a@[i], b@[i]),
{
    assert forall|i: int| 0 <= i < a@.len() && i < b@.len() implies same_but_case(
        #[trigger] a@[i],
        b@[i],
    ) == (crate::text::ascii_lower(a@[i]) == crate::text::ascii_lower(b@[i])) by {
        lemma_same_but_case(a@[i], b@[i]);
    }
}

/// The same character, or one letter in two cases.
pub open spec fn same_but_case(c: char, d: char) -> bool {
    ||| c == d
    ||| 'A' <= c <= 'Z' && d as int == c as int + 32
    ||| 'A' <= d <= 'Z' && c as int == d as int + 32
}

/// Lower case, by the characters.
proof fn lemma_same_but_case(c: char, d: char)
    ensures
        same_but_case(c, d) == (crate::text::ascii_lower(c) == crate::text::ascii_lower(d)),
{
}

/// Which characters count as a small letter or digit.
pub(crate) proof fn lemma_lower(c: char, small: char)
    requires
        'a' <= small <= 'z' || '0' <= small <= '9',
    ensures
        (crate::text::ascii_lower(c) == crate::text::ascii_lower(small)) == same_but_case(c, small),
{
    lemma_same_but_case(c, small);
}

/// A text starts with another exactly if it is that text and something behind it,
/// and two texts are the same exactly if their characters are.
pub proof fn law_prefixes(s: &str, prefix: &str, starts: bool, same: bool)
    requires
        call_ensures(crate::text::starts_with, (s, prefix), starts),
        call_ensures(crate::text::same_text, (s, prefix), same),
    ensures
        starts <==> exists|rest: Seq<char>| s@ == #[trigger] (prefix@ + rest),
        same <==> s@ == prefix@,
        same ==> starts,
{
    crate::backends::gstreamer_laws::lemma_extends(s@, prefix@);
    if s@ == prefix@ {
        assert(s@ =~= prefix@ + Seq::<char>::empty());
    }
}

} // verus!
