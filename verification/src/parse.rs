//! Reading a board from the nine digits a user types.

use vstd::prelude::*;

use crate::board::{is_tile_permutation, lemma_permutation_has_every_value, Board};
use crate::text::{chars_of, decimal, push_decimal, trim, trimmed};

verus! {

/// `c` is one of `0` to `9`.
pub open spec fn is_digit_char(c: char) -> bool {
    '0' <= c <= '9'
}

/// The value of a decimal digit character.
pub open spec fn digit_value(c: char) -> u8 {
    (c as int - 48) as u8
}

/// The length of `t` in bytes, as `str::len` reports it.
pub open spec fn byte_length(t: Seq<char>) -> usize {
    vstd::utf8::encode_utf8(t).len() as usize
}

/// The first index at or after `i` whose character is not a digit, or the
/// length when there is none.
pub open spec fn first_non_digit_from(t: Seq<char>, i: int) -> int
    decreases t.len() - i,
{
    if i >= t.len() {
        t.len() as int
    } else if !is_digit_char(t[i]) {
        i
    } else {
        first_non_digit_from(t, i + 1)
    }
}

/// The first index at or after `i` whose value exceeds eight, or the length
/// when there is none.
pub open spec fn first_above_eight_from(d: Seq<u8>, i: int) -> int
    decreases d.len() - i,
{
    if i >= d.len() {
        d.len() as int
    } else if d[i] > 8 {
        i
    } else {
        first_above_eight_from(d, i + 1)
    }
}

/// The first index at or after `j` whose value already occurs before it, or
/// the length when there is none.
pub open spec fn first_repeat_from(d: Seq<u8>, j: int) -> int
    decreases d.len() - j,
{
    if j >= d.len() {
        d.len() as int
    } else if d.take(j).contains(d[j]) {
        j
    } else {
        first_repeat_from(d, j + 1)
    }
}

pub open spec fn length_message(n: nat) -> Seq<char> {
    "输入长度必须为9位字符，当前长度为 "@ + decimal(n) + " 位"@
}

pub open spec fn non_digit_message(position: nat, c: char) -> Seq<char> {
    "第 "@ + decimal(position) + " 位 '"@ + seq![c] + "' 不是有效数字（0-9）"@
}

pub open spec fn out_of_range_message(position: nat, d: u8) -> Seq<char> {
    "第 "@ + decimal(position) + " 位 '"@ + decimal(d as nat)
        + "' 超出有效范围（0-8），8 数码拼图只使用数字 0-8"@
}

pub open spec fn repeat_message(d: u8) -> Seq<char> {
    "数字 '"@ + decimal(d as nat) + "' 重复出现，每个数字（0-9）只能使用一次"@
}

pub open spec fn missing_blank_message() -> Seq<char> {
    "输入必须包含数字 0（代表空位）"@
}

/// What reading `input` yields: after trimming white space the text must be
/// nine bytes long, consist of digits, use only `0` to `8`, repeat none and
/// contain `0`; the first rule broken, at its first offending position,
/// names the error.
pub open spec fn parse_result(input: Seq<char>) -> Result<Seq<u8>, Seq<char>> {
    let t = trimmed(input);
    let n = byte_length(t);
    let d = t.map_values(|c: char| digit_value(c));
    if n != 9 {
        Err(length_message(n as nat))
    } else if first_non_digit_from(t, 0) < t.len() {
        let i = first_non_digit_from(t, 0);
        Err(non_digit_message((i + 1) as nat, t[i]))
    } else if first_above_eight_from(d, 0) < d.len() {
        let i = first_above_eight_from(d, 0);
        Err(out_of_range_message((i + 1) as nat, d[i]))
    } else if first_repeat_from(d, 0) < d.len() {
        Err(repeat_message(d[first_repeat_from(d, 0)]))
    } else if !d.contains(0) {
        Err(missing_blank_message())
    } else {
        Ok(d)
    }
}

/// Nine digit characters whose values use each of `0` to `8` once.
pub open spec fn is_permutation_text(t: Seq<char>) -> bool {
    &&& t.len() == 9
    &&& forall|i: int| 0 <= i < 9 ==> is_digit_char(#[trigger] t[i])
    &&& is_tile_permutation(t.map_values(|c: char| digit_value(c)))
}

proof fn lemma_first_non_digit(t: Seq<char>, i: int)
    requires
        0 <= i <= t.len(),
    ensures
        i <= first_non_digit_from(t, i) <= t.len(),
        first_non_digit_from(t, i) == t.len() <==> forall|k: int|
            i <= k < t.len() ==> is_digit_char(#[trigger] t[k]),
    decreases t.len() - i,
{
    if i < t.len() {
        lemma_first_non_digit(t, i + 1);
    }
}

proof fn lemma_first_above_eight(d: Seq<u8>, i: int)
    requires
        0 <= i <= d.len(),
    ensures
        i <= first_above_eight_from(d, i) <= d.len(),
        first_above_eight_from(d, i) == d.len() <==> forall|k: int|
            i <= k < d.len() ==> #[trigger] d[k] <= 8,
    decreases d.len() - i,
{
    if i < d.len() {
        lemma_first_above_eight(d, i + 1);
    }
}

proof fn lemma_first_repeat(d: Seq<u8>, j: int)
    requires
        0 <= j <= d.len(),
    ensures
        j <= first_repeat_from(d, j) <= d.len(),
        first_repeat_from(d, j) == d.len() <==> forall|k: int|
            j <= k < d.len() ==> !#[trigger] d.take(k).contains(d[k]),
    decreases d.len() - j,
{
    if j < d.len() {
        lemma_first_repeat(d, j + 1);
    }
}

/// No value repeats an earlier one exactly when the values are distinct.
proof fn lemma_no_repeat_distinct(d: Seq<u8>)
    ensures
        (forall|k: int| 0 <= k < d.len() ==> !#[trigger] d.take(k).contains(d[k])) <==> (forall|
            i: int,
            j: int,
        | 0 <= i < j < d.len() ==> #[trigger] d[i] != #[trigger] d[j]),
{
    if forall|k: int| 0 <= k < d.len() ==> !#[trigger] d.take(k).contains(d[k]) {
        assert forall|i: int, j: int| 0 <= i < j < d.len() implies #[trigger] d[i] != #[trigger] d[j] by {
            assert(!d.take(j).contains(d[j]));
            assert(d.take(j)[i] == d[i]);
        }
    }
    if forall|i: int, j: int| 0 <= i < j < d.len() ==> #[trigger] d[i] != #[trigger] d[j] {
        assert forall|k: int| 0 <= k < d.len() implies !#[trigger] d.take(k).contains(d[k]) by {
            if d.take(k).contains(d[k]) {
                let i = choose|i: int| 0 <= i < d.take(k).len() && d.take(k)[i] == d[k];
                assert(d[i] != d[k]);
            }
        }
    }
}

/// `parse_input` accepts exactly the texts that, once trimmed, are nine
/// digits using each of `0` to `8` once, and the board it then returns
/// holds every value, the blank included.
pub proof fn lemma_parse_accepts_permutations(input: Seq<char>)
    requires
        vstd::utf8::encode_utf8(trimmed(input)).len() <= usize::MAX,
    ensures
        (parse_result(input) is Ok) == is_permutation_text(trimmed(input)),
        parse_result(input) matches Ok(d) ==> is_tile_permutation(d) && forall|v: u8|
            v < 9 ==> #[trigger] d.contains(v),
{
    let t = trimmed(input);
    let d = t.map_values(|c: char| digit_value(c));
    lemma_first_non_digit(t, 0);
    lemma_first_above_eight(d, 0);
    lemma_first_repeat(d, 0);
    lemma_no_repeat_distinct(d);
    if first_non_digit_from(t, 0) == t.len() {
        assert forall|j: int| 0 <= j < t.len() implies '\0' <= #[trigger] t[j] <= '\u{7f}' by {
            assert(is_digit_char(t[j]));
        }
        vstd::utf8::is_ascii_chars_encode_utf8(t);
        if byte_length(t) == 9 && first_above_eight_from(d, 0) == d.len() && first_repeat_from(d, 0)
            == d.len() {
            assert(t.len() == 9);
            assert(is_tile_permutation(d));
            lemma_permutation_has_every_value(d);
            assert(d.contains(0));
        }
    }
    if is_permutation_text(t) {
        assert forall|j: int| 0 <= j < t.len() implies '\0' <= #[trigger] t[j] <= '\u{7f}' by {
            assert(is_digit_char(t[j]));
        }
        vstd::utf8::is_ascii_chars_encode_utf8(t);
        lemma_permutation_has_every_value(d);
        assert(d.contains(0));
    }
}

/// An accepted text gives exactly its digits, in order: each cell holds the
/// value of the character at the same place of the trimmed text.
pub proof fn lemma_parse_reads_digits(input: Seq<char>)
    ensures
        parse_result(input) matches Ok(d) ==> {
            &&& d.len() == trimmed(input).len()
            &&& forall|i: int|
                0 <= i < d.len() ==> #[trigger] d[i] as int + ('0' as int) == trimmed(input)[i] as int
        },
{
    let t = trimmed(input);
    lemma_first_non_digit(t, 0);
    let d = t.map_values(|c: char| digit_value(c));
    if parse_result(input) is Ok {
        assert forall|i: int| 0 <= i < d.len() implies #[trigger] d[i] as int + ('0' as int)
            == t[i] as int by {
            assert(is_digit_char(t[i]));
        }
    }
}

fn length_error(n: usize) -> (m: String)
    ensures
        m@ == length_message(n as nat),
{
    let mut m = String::new();
    m.append("输入长度必须为9位字符，当前长度为 ");
    push_decimal(&mut m, n);
    m.append(" 位");
    m
}

fn non_digit_error(position: usize, c: char) -> (m: String)
    ensures
        m@ == non_digit_message(position as nat, c),
{
    let mut m = String::new();
    m.append("第 ");
    push_decimal(&mut m, position);
    m.append(" 位 '");
    crate::text::push_char(&mut m, c);
    m.append("' 不是有效数字（0-9）");
    m
}

fn out_of_range_error(position: usize, d: u8) -> (m: String)
    ensures
        m@ == out_of_range_message(position as nat, d),
{
    let mut m = String::new();
    m.append("第 ");
    push_decimal(&mut m, position);
    m.append(" 位 '");
    push_decimal(&mut m, d as usize);
    m.append("' 超出有效范围（0-8），8 数码拼图只使用数字 0-8");
    m
}

fn repeat_error(d: u8) -> (m: String)
    ensures
        m@ == repeat_message(d),
{
    let mut m = String::new();
    m.append("数字 '");
    push_decimal(&mut m, d as usize);
    m.append("' 重复出现，每个数字（0-9）只能使用一次");
    m
}

/// Reads a board from nine digits `0` to `8`, each used once, surrounding
/// white space ignored; `0` marks the blank. On failure the error names the
/// first rule broken (see `parse_result`).
pub fn parse_input(input: &str) -> (result: Result<Board, String>)
    ensures
        match result {
            Ok(b) => parse_result(input@) == Ok::<Seq<u8>, Seq<char>>(b@),
            Err(m) => parse_result(input@) == Err::<Seq<u8>, Seq<char>>(m@),
        },
        result matches Ok(b) ==> {
            &&& trimmed(input@).len() == 9
            &&& forall|i: int|
                0 <= i < 9 ==> #[trigger] b@[i] as int + ('0' as int) == trimmed(input@)[i] as int
        },
{
    proof {
        lemma_parse_reads_digits(input@);
    }
    let trimmed_input = trim(input);
    let ghost t = trimmed(input@);
    let len = trimmed_input.len();
    if len != 9 {
        return Err(length_error(len));
    }
    let chars = chars_of(trimmed_input);
    let n = chars.len();
    let mut i: usize = 0;
    while i < n
        invariant
            n == chars@.len(),
            chars@ == t,
            t == trimmed(input@),
            byte_length(t) == 9,
            0 <= i <= n,
            first_non_digit_from(t, 0) == first_non_digit_from(t, i as int),
            forall|k: int| 0 <= k < i ==> is_digit_char(#[trigger] t[k]),
        decreases n - i,
    {
        let c = chars[i];
        if !('0' <= c && c <= '9') {
            return Err(non_digit_error(i + 1, c));
        }
        i = i + 1;
    }
    proof {
        assert forall|j: int| 0 <= j < t.len() implies '\0' <= #[trigger] t[j] <= '\u{7f}' by {
            let c = t[j];
            assert(is_digit_char(c));
            assert(c <= '\u{7f}');
            assert('\0' <= c);
        }
        assert(vstd::utf8::is_ascii_chars(t));
        vstd::utf8::is_ascii_chars_encode_utf8(t);
        assert(t.len() == 9);
        assert(first_non_digit_from(t, 0) == 9);
    }
    let ghost d = t.map_values(|c: char| digit_value(c));
    let mut digits: Vec<u8> = Vec::new();
    let mut k: usize = 0;
    while k < 9
        invariant
            n == 9,
            chars@ == t,
            t == trimmed(input@),
            byte_length(t) == 9,
            t.len() == 9,
            first_non_digit_from(t, 0) == 9,
            d == t.map_values(|c: char| digit_value(c)),
            0 <= k <= 9,
            forall|j: int| 0 <= j < 9 ==> is_digit_char(#[trigger] t[j]),
            digits@ == d.take(k as int),
        decreases 9 - k,
    {
        let code = chars[k] as u32;
        digits.push((code - 48) as u8);
        assert(digits@ =~= d.take(k + 1));
        k = k + 1;
    }
    assert(digits@ =~= d);
    let mut k: usize = 0;
    while k < 9
        invariant
            digits@ == d,
            d.len() == 9,
            t == trimmed(input@),
            byte_length(t) == 9,
            t.len() == 9,
            first_non_digit_from(t, 0) == 9,
            d == t.map_values(|c: char| digit_value(c)),
            0 <= k <= 9,
            first_above_eight_from(d, 0) == first_above_eight_from(d, k as int),
            forall|j: int| 0 <= j < k ==> #[trigger] d[j] <= 8,
        decreases 9 - k,
    {
        if digits[k] > 8 {
            return Err(out_of_range_error(k + 1, digits[k]));
        }
        k = k + 1;
    }
    let mut seen: [bool; 10] = [false; 10];
    let mut k: usize = 0;
    while k < 9
        invariant
            digits@ == d,
            d.len() == 9,
            t == trimmed(input@),
            byte_length(t) == 9,
            t.len() == 9,
            first_non_digit_from(t, 0) == 9,
            d == t.map_values(|c: char| digit_value(c)),
            first_above_eight_from(d, 0) == 9,
            0 <= k <= 9,
            forall|j: int| 0 <= j < 9 ==> #[trigger] d[j] <= 8,
            first_repeat_from(d, 0) == first_repeat_from(d, k as int),
            forall|v: int| 0 <= v < 10 ==> seen@[v] == d.take(k as int).contains(v as u8),
        decreases 9 - k,
    {
        let v = digits[k];
        if seen[v as usize] {
            return Err(repeat_error(v));
        }
        seen[v as usize] = true;
        proof {
            let pre = d.take(k as int);
            let post = d.take(k + 1);
            assert(post =~= pre.push(v));
            assert forall|w: int| 0 <= w < 10 implies seen@[w] == post.contains(w as u8) by {
                if pre.contains(w as u8) {
                    let x = choose|x: int| 0 <= x < pre.len() && #[trigger] pre[x] == w as u8;
                    assert(post[x] == w as u8);
                }
                if post.contains(w as u8) {
                    let x = choose|x: int| 0 <= x < post.len() && #[trigger] post[x] == w as u8;
                    if x < k {
                        assert(pre[x] == w as u8);
                    }
                }
                if w == v {
                    assert(post[k as int] == v);
                }
            }
        }
        k = k + 1;
    }
    assert(d.take(9) =~= d);
    if !seen[0] {
        let mut m = String::new();
        m.append("输入必须包含数字 0（代表空位）");
        return Err(m);
    }
    let data: [u8; 9] = [
        digits[0],
        digits[1],
        digits[2],
        digits[3],
        digits[4],
        digits[5],
        digits[6],
        digits[7],
        digits[8],
    ];
    assert(data@ =~= d);
    Ok(Board::from_array(data))
}

} // verus!
