//! Grouping the characters of a numeral in threes.

use vstd::prelude::*;

use crate::text::{chars_of, push_char};

verus! {

/// `s` with a comma before every character whose position is a positive
/// multiple of three, counting from the left.
pub open spec fn grouped_by_three(s: Seq<char>) -> Seq<char>
    decreases s.len(),
{
    if s.len() == 0 {
        s
    } else {
        let i = s.len() - 1;
        let front = grouped_by_three(s.drop_last());
        if i > 0 && i % 3 == 0 {
            front.push(',').push(s.last())
        } else {
            front.push(s.last())
        }
    }
}

/// Where grouping puts things: the `i`-th character of `s` lands at
/// `i + i / 3`, every fourth place from the fourth on holds a comma, and
/// one comma is added for each full group of three after the first
/// character.
pub proof fn lemma_grouping_places(s: Seq<char>)
    ensures
        s.len() == 0 ==> grouped_by_three(s).len() == 0,
        s.len() > 0 ==> grouped_by_three(s).len() == s.len() + (s.len() - 1) / 3,
        forall|i: int| 0 <= i < s.len() ==> grouped_by_three(s)[i + i / 3] == #[trigger] s[i],
        forall|j: int|
            0 <= j < grouped_by_three(s).len() && j % 4 == 3 ==> #[trigger] grouped_by_three(s)[j]
                == ',',
    decreases s.len(),
{
    if s.len() > 0 {
        let f = s.drop_last();
        lemma_grouping_places(f);
        let n = f.len() as int;
        let r = grouped_by_three(s);
        let fr = grouped_by_three(f);
        assert forall|i: int| 0 <= i < s.len() implies r[i + i / 3] == #[trigger] s[i] by {
            if i < n {
                assert(f[i] == s[i]);
                assert(i / 3 <= (n - 1) / 3);
                assert(fr[i + i / 3] == f[i]);
            }
        }
        assert forall|j: int| 0 <= j < r.len() && j % 4 == 3 implies #[trigger] r[j] == ',' by {
            if j < fr.len() {
                assert(fr[j] == ',');
            }
        }
    }
}

/// Inserts a comma after every third character, counting from the left:
/// `"1234567"` becomes `"123,456,7"`.
pub fn format_number(s: &str) -> (result: String)
    ensures
        result@ == grouped_by_three(s@),
        s@.len() > 0 ==> result@.len() == s@.len() + (s@.len() - 1) / 3,
        forall|i: int| 0 <= i < s@.len() ==> result@[i + i / 3] == #[trigger] s@[i],
        forall|j: int| 0 <= j < result@.len() && j % 4 == 3 ==> #[trigger] result@[j] == ',',
{
    proof {
        lemma_grouping_places(s@);
    }
    let mut result = String::new();
    let chars = chars_of(s);
    let n = chars.len();
    let mut i: usize = 0;
    while i < n
        invariant
            n == chars@.len(),
            chars@ == s@,
            0 <= i <= n,
            result@ == grouped_by_three(chars@.take(i as int)),
        decreases n - i,
    {
        assert(chars@.take(i + 1).drop_last() =~= chars@.take(i as int));
        if i > 0 && i % 3 == 0 {
            push_char(&mut result, ',');
        }
        push_char(&mut result, chars[i]);
        i = i + 1;
    }
    assert(chars@.take(n as int) =~= chars@);
    result
}

} // verus!
