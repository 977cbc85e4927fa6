//! Password rules: digits never decrease, some digit appears twice in a
//! row, and (for the stricter rule) some maximal run of equal digits has an
//! exact length; with the counts of compliant passwords in the puzzle range.

use vstd::prelude::*;
use vstd::string::StrSliceExecFns;

verus! {

/// Every character is a decimal digit.
pub open spec fn spec_all_digits(s: Seq<char>) -> bool {
    forall|i: int| 0 <= i < s.len() ==> '0' <= #[trigger] s[i] <= '9'
}

/// No character is smaller than the one before it.
pub open spec fn spec_non_decreasing(s: Seq<char>) -> bool {
    forall|i: int| 1 <= i < s.len() ==> #[trigger] s[i - 1] <= s[i]
}

/// Two equal characters stand side by side somewhere.
pub open spec fn spec_has_double(s: Seq<char>) -> bool {
    exists|i: int| 1 <= i < s.len() && #[trigger] s[i - 1] == s[i]
}

/// A maximal run of exactly `n` equal characters starts at `i`.
pub open spec fn spec_run_at(s: Seq<char>, i: int, n: int) -> bool {
    &&& 0 <= i && n >= 1 && i + n <= s.len()
    &&& (forall|k: int| i <= k < i + n ==> #[trigger] s[k] == s[i])
    &&& (i == 0 || s[i - 1] != s[i])
    &&& (i + n == s.len() || s[i + n] != s[i])
}

/// Some maximal run of equal characters has length exactly `n`.
pub open spec fn spec_has_exact_group(s: Seq<char>, n: int) -> bool {
    exists|i: int| #[trigger] spec_run_at(s, i, n)
}

/// True when the digits of the password never decrease from left to right.
pub fn compliant_to_decreasing_rule(password: String) -> (r: bool)
    requires
        password@.len() >= 1,
        spec_all_digits(password@),
    ensures
        r == spec_non_decreasing(password@),
{
    let st = password.as_str();
    let len = st.unicode_len();
    let mut i: usize = 1;
    while i < len
        invariant
            1 <= i <= len,
            len == password@.len(),
            st@ == password@,
            forall|j: int| 1 <= j < i ==> #[trigger] password@[j - 1] <= password@[j],
        decreases len - i,
    {
        let prev = st.get_char(i - 1);
        let cur = st.get_char(i);
        if (cur as u32) < (prev as u32) {
            return false;
        }
        i = i + 1;
    }
    true
}

/// True when some digit appears at least twice in a row.
pub fn compliant_to_double_rule(password: String) -> (r: bool)
    requires
        password@.len() >= 1,
    ensures
        r == spec_has_double(password@),
{
    let st = password.as_str();
    let len = st.unicode_len();
    let mut i: usize = 1;
    while i < len
        invariant
            1 <= i <= len,
            len == password@.len(),
            st@ == password@,
            forall|j: int| 1 <= j < i ==> #[trigger] password@[j - 1] != password@[j],
        decreases len - i,
    {
        let prev = st.get_char(i - 1);
        let cur = st.get_char(i);
        if cur == prev {
            return true;
        }
        i = i + 1;
    }
    false
}

/// True when some maximal run of equal digits has length exactly
/// `number_of_element_by_group`, which is meaningful from two upward.
pub fn compliant_to_strict_group_rule(password: String, number_of_element_by_group: i32) -> (r:
    bool)
    requires
        password@.len() >= 1,
    ensures
        r == (number_of_element_by_group >= 2 && spec_has_exact_group(
            password@,
            number_of_element_by_group as int,
        )),
{
    if number_of_element_by_group < 2 {
        return false;
    }
    let st = password.as_str();
    let len = st.unicode_len();
    let mut i: usize = 0;
    while i < len
        invariant
            0 <= i <= len,
            number_of_element_by_group >= 2,
            len == password@.len(),
            st@ == password@,
            i == 0 || i == len || password@[i - 1] != password@[i as int],
            forall|k: int|
                0 <= k < i ==> !#[trigger] spec_run_at(
                    password@,
                    k,
                    number_of_element_by_group as int,
                ),
        decreases len - i,
    {
        let c = st.get_char(i);
        let mut j: usize = i + 1;
        while j < len && st.get_char(j) == c
            invariant
                i < j <= len,
                len == password@.len(),
                st@ == password@,
                c == password@[i as int],
                forall|k: int| i <= k < j ==> #[trigger] password@[k] == password@[i as int],
            decreases len - j,
        {
            j = j + 1;
        }
        if number_of_element_by_group >= 2 && j - i == (number_of_element_by_group as usize) {
            proof {
                assert(spec_run_at(password@, i as int, j - i));
            }
            return true;
        }
        proof {
            let ngoal = number_of_element_by_group as int;
            assert forall|k: int| 0 <= k < j implies !#[trigger] spec_run_at(
                password@,
                k,
                ngoal,
            ) by {
                if i <= k < j && spec_run_at(password@, k, ngoal) {
                    if k > i {
                        assert(password@[k - 1] == password@[k as int]);
                        assert(false);
                    } else {
                        // The run starting here ends exactly at j, so its
                        // length is j - i, which is not the wanted one.
                        if ngoal < j - i {
                            assert(password@[k + ngoal] == password@[i as int]);
                            assert(false);
                        }
                        if ngoal > j - i {
                            assert(password@[j as int] == password@[i as int]);
                            assert(false);
                        }
                    }
                }
            }
        }
        i = j;
    }
    false
}

/// The decimal digit character for a value below ten.
pub open spec fn spec_digit_char(d: int) -> char {
    if d == 0 {
        '0'
    } else if d == 1 {
        '1'
    } else if d == 2 {
        '2'
    } else if d == 3 {
        '3'
    } else if d == 4 {
        '4'
    } else if d == 5 {
        '5'
    } else if d == 6 {
        '6'
    } else if d == 7 {
        '7'
    } else if d == 8 {
        '8'
    } else {
        '9'
    }
}

/// The decimal digit characters of `n`, most significant first.
pub open spec fn spec_digits(n: int) -> Seq<char>
    decreases n,
{
    if n < 10 {
        seq![spec_digit_char(n)]
    } else {
        spec_digits(n / 10).push(spec_digit_char(n % 10))
    }
}

fn digit_str(d: u32) -> (r: &'static str)
    requires
        d < 10,
    ensures
        r@ == seq![spec_digit_char(d as int)],
{
    proof {
        reveal_strlit("0");
        reveal_strlit("1");
        reveal_strlit("2");
        reveal_strlit("3");
        reveal_strlit("4");
        reveal_strlit("5");
        reveal_strlit("6");
        reveal_strlit("7");
        reveal_strlit("8");
        reveal_strlit("9");
    }
    let r = match d {
        0u32 => "0",
        1u32 => "1",
        2u32 => "2",
        3u32 => "3",
        4u32 => "4",
        5u32 => "5",
        6u32 => "6",
        7u32 => "7",
        8u32 => "8",
        _ => "9",
    };
    proof {
        assert(r@ =~= seq![spec_digit_char(d as int)]);
    }
    r
}

/// The decimal text of a number, as the password strings are written.
pub fn to_digit_string(x: u32) -> (s: String)
    ensures
        s@ == spec_digits(x as int),
    decreases x,
{
    if x < 10 {
        let mut s = String::new();
        s.append(digit_str(x));
        proof {
            assert(s@ =~= spec_digits(x as int));
        }
        s
    } else {
        let mut s = to_digit_string(x / 10);
        s.append(digit_str(x % 10));
        proof {
            assert(s@ =~= spec_digits(x as int));
        }
        s
    }
}

/// Every character that `spec_digits` produces is a decimal digit, and
/// there is at least one.
pub proof fn lemma_digits_wf(n: int)
    requires
        n >= 0,
    ensures
        spec_digits(n).len() >= 1,
        spec_all_digits(spec_digits(n)),
    decreases n,
{
    if n >= 10 {
        lemma_digits_wf(n / 10);
    }
}

/// A password in the range is compliant for the first count when its
/// digits never decrease and some digit doubles.
pub open spec fn spec_ok1(n: int) -> bool {
    spec_non_decreasing(spec_digits(n)) && spec_has_double(spec_digits(n))
}

/// For the second count a maximal run of exactly two equal digits must
/// exist as well.
pub open spec fn spec_ok2(n: int) -> bool {
    spec_ok1(n) && spec_has_exact_group(spec_digits(n), 2)
}

/// How many numbers in `[264793, hi)` pass the first rule set.
pub open spec fn spec_count1(hi: int) -> int
    decreases hi,
{
    if hi <= 264793 {
        0
    } else {
        spec_count1(hi - 1) + if spec_ok1(hi - 1) {
            1int
        } else {
            0int
        }
    }
}

/// How many numbers in `[264793, hi)` pass the second rule set.
pub open spec fn spec_count2(hi: int) -> int
    decreases hi,
{
    if hi <= 264793 {
        0
    } else {
        spec_count2(hi - 1) + if spec_ok2(hi - 1) {
            1int
        } else {
            0int
        }
    }
}

proof fn lemma_count1_bounds(hi: int)
    ensures
        0 <= spec_count1(hi),
        hi > 264793 ==> spec_count1(hi) <= hi - 264793,
    decreases hi,
{
    if hi > 264793 {
        lemma_count1_bounds(hi - 1);
    }
}

proof fn lemma_count2_bounds(hi: int)
    ensures
        0 <= spec_count2(hi),
        hi > 264793 ==> spec_count2(hi) <= hi - 264793,
    decreases hi,
{
    if hi > 264793 {
        lemma_count2_bounds(hi - 1);
    }
}

/// Counts the passwords in the puzzle range whose digits never decrease
/// and which contain a doubled digit.
pub fn part1() -> (r: u32)
    ensures
        r == spec_count1(803935),
{
    let mut count: u32 = 0;
    let mut password: u32 = 264793;
    while password < 803935
        invariant
            264793 <= password <= 803935,
            count == spec_count1(password as int),
        decreases 803935 - password,
    {
        proof {
            lemma_digits_wf(password as int);
            lemma_count1_bounds(password as int);
        }
        let text = to_digit_string(password);
        let ok = if compliant_to_decreasing_rule(text.clone()) {
            compliant_to_double_rule(text)
        } else {
            false
        };
        if ok {
            count = count + 1;
        }
        password = password + 1;
    }
    count
}

/// Counts the passwords in the puzzle range that also contain a maximal
/// run of exactly two equal digits.
pub fn part2() -> (r: u32)
    ensures
        r == spec_count2(803935),
{
    let mut count: u32 = 0;
    let mut password: u32 = 264793;
    while password < 803935
        invariant
            264793 <= password <= 803935,
            count == spec_count2(password as int),
        decreases 803935 - password,
    {
        proof {
            lemma_digits_wf(password as int);
            lemma_count2_bounds(password as int);
        }
        let text = to_digit_string(password);
        let ok = if compliant_to_decreasing_rule(text.clone()) {
            if compliant_to_double_rule(text.clone()) {
                compliant_to_strict_group_rule(text, 2)
            } else {
                false
            }
        } else {
            false
        };
        if ok {
            count = count + 1;
        }
        password = password + 1;
    }
    count
}

} // verus!
