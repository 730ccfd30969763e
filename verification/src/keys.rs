//! The repeat count typed before a key command.
use vstd::prelude::*;
use crate::konata::texts::chars_of;

verus! {

/// Unicode `White_Space`, the characters that `char::is_whitespace` accepts.
pub open spec fn is_white_space(c: char) -> bool {
    let u = c as u32;
    (0x9 <= u <= 0xD) || u == 0x20 || u == 0x85 || u == 0xA0 || u == 0x1680 || (0x2000 <= u <= 0x200A) || u == 0x2028
        || u == 0x2029 || u == 0x202F || u == 0x205F || u == 0x3000
}

/// Whether `c` is white space.
pub fn white_space(c: char) -> (white: bool)
    ensures
        white == is_white_space(c),
{
    let u = c as u32;
    (0x9 <= u && u <= 0xD) || u == 0x20 || u == 0x85 || u == 0xA0 || u == 0x1680 || (0x2000 <= u && u <= 0x200A) || u
        == 0x2028 || u == 0x2029 || u == 0x202F || u == 0x205F || u == 0x3000
}

/// `s` without leading white space.
pub open spec fn strip_front(s: Seq<char>) -> Seq<char>
    decreases s.len(),
{
    if s.len() > 0 && is_white_space(s[0]) {
        strip_front(s.drop_first())
    } else {
        s
    }
}

/// `s` without trailing white space.
pub open spec fn strip_back(s: Seq<char>) -> Seq<char>
    decreases s.len(),
{
    if s.len() > 0 && is_white_space(s.last()) {
        strip_back(s.drop_last())
    } else {
        s
    }
}

/// `s` without leading and trailing white space, as `str::trim` leaves it.
pub open spec fn trimmed(s: Seq<char>) -> Seq<char> {
    strip_back(strip_front(s))
}

/// Every character is an ASCII digit.
pub open spec fn all_digits(s: Seq<char>) -> bool {
    forall|i: int| 0 <= i < s.len() ==> '0' <= #[trigger] s[i] <= '9'
}

/// The number that a string of ASCII digits spells.
pub open spec fn digits_value(s: Seq<char>) -> nat
    decreases s.len(),
{
    if s.len() == 0 {
        0
    } else {
        digits_value(s.drop_last()) * 10 + (s.last() as nat - '0' as nat) as nat
    }
}

/// The number an unsigned decimal literal spells: an optional `+` and at least one digit.
pub open spec fn unsigned_literal(s: Seq<char>) -> Option<nat> {
    let body = if s.len() > 0 && s[0] == '+' {
        s.drop_first()
    } else {
        s
    };
    if body.len() > 0 && all_digits(body) {
        Some(digits_value(body))
    } else {
        None
    }
}

/// The count a command repeats: the typed count when it is a `usize` literal (white space
/// around it ignored), else 1.
pub open spec fn count_of(count: Option<Seq<char>>) -> nat {
    match count {
        Some(text) => match unsigned_literal(trimmed(text)) {
            Some(n) => if n <= usize::MAX {
                n
            } else {
                1
            },
            None => 1,
        },
        None => 1,
    }
}

pub proof fn lemma_strip_front(s: Seq<char>, i: int)
    requires
        0 <= i <= s.len(),
        forall|j: int| 0 <= j < i ==> is_white_space(#[trigger] s[j]),
        i == s.len() || !is_white_space(s[i]),
    ensures
        strip_front(s) == s.subrange(i, s.len() as int),
    decreases i,
{
    if i > 0 {
        lemma_strip_front(s.drop_first(), i - 1);
        assert(s.drop_first().subrange(i - 1, s.len() - 1) =~= s.subrange(i, s.len() as int));
    } else {
        assert(s.subrange(0, s.len() as int) =~= s);
    }
}

pub proof fn lemma_strip_back(s: Seq<char>, e: int)
    requires
        0 <= e <= s.len(),
        forall|j: int| e <= j < s.len() ==> is_white_space(#[trigger] s[j]),
        e == 0 || !is_white_space(s[e - 1]),
    ensures
        strip_back(s) == s.subrange(0, e),
    decreases s.len() - e,
{
    if e < s.len() {
        lemma_strip_back(s.drop_last(), e);
        assert(s.drop_last().subrange(0, e) =~= s.subrange(0, e));
    } else {
        assert(s.subrange(0, s.len() as int) =~= s);
    }
}

proof fn lemma_digits_prefix(s: Seq<char>, i: int)
    requires
        0 <= i < s.len(),
    ensures
        digits_value(s.take(i + 1)) == digits_value(s.take(i)) * 10 + (s[i] as nat - '0' as nat) as nat,
{
    assert(s.take(i + 1).drop_last() =~= s.take(i));
}

/// The repeat count: the typed count when it reads as a `usize` (white space around it
/// ignored), else 1.
pub fn get_count(count: Option<&str>) -> (n: usize)
    ensures
        count is None ==> n == 1,
        count matches Some(t) ==> n == count_of(Some(t@)),
{
    match count {
        Some(t) => count_from_text(t),
        None => 1,
    }
}

/// The count that `text` spells, else 1.
fn count_from_text(text: &str) -> (n: usize)
    ensures
        n == count_of(Some(text@)),
{
    let chars = chars_of(text);
    let ghost s = chars@;
    let mut start: usize = 0;
    while start < chars.len() && white_space(chars[start])
        invariant
            start <= chars.len(),
            s == chars@,
            forall|j: int| 0 <= j < start ==> is_white_space(#[trigger] s[j]),
        decreases chars.len() - start,
    {
        start = start + 1;
    }
    let ghost front = s.subrange(start as int, s.len() as int);
    proof {
        lemma_strip_front(s, start as int);
    }
    let mut end: usize = chars.len();
    while end > start && white_space(chars[end - 1])
        invariant
            start <= end <= chars.len(),
            s == chars@,
            forall|j: int| end <= j < chars.len() ==> is_white_space(#[trigger] s[j]),
        decreases end - start,
    {
        end = end - 1;
    }
    let ghost t = s.subrange(start as int, end as int);
    proof {
        assert forall|j: int| end - start <= j < front.len() implies is_white_space(#[trigger] front[j]) by {
            assert(front[j] == s[start + j]);
        }
        if end > start {
            assert(front[end - start - 1] == s[end - 1]);
        }
        lemma_strip_back(front, end - start);
        assert(front.subrange(0, end - start) =~= t);
    }
    let mut i = start;
    if i < end && chars[i] == '+' {
        i = i + 1;
    }
    let ghost body = s.subrange(i as int, end as int);
    proof {
        assert(trimmed(text@) == t);
        if start < end {
            assert(t[0] == s[start as int]);
        }
        if start < end && s[start as int] == '+' {
            assert(t.drop_first() =~= body);
        } else {
            assert(t =~= body);
        }
    }
    proof {
        assert(count_of(Some(text@)) == (if body.len() > 0 && all_digits(body) && digits_value(body) <= usize::MAX {
            digits_value(body)
        } else {
            1
        }));
    }
    if i == end {
        return 1;
    }
    let mut value: usize = 0;
    let mut k = i;
    while k < end
        invariant
            i <= k <= end <= chars.len(),
            s == chars@,
            body == s.subrange(i as int, end as int),
            count_of(Some(text@)) == (if body.len() > 0 && all_digits(body) && digits_value(body) <= usize::MAX {
                digits_value(body)
            } else {
                1
            }),
            forall|j: int| i <= j < k ==> '0' <= #[trigger] s[j] <= '9',
            value == digits_value(body.take(k - i)),
        decreases end - k,
    {
        let c = chars[k];
        if c < '0' || c > '9' {
            proof {
                assert(body[k - i] == c);
                assert(!all_digits(body));
            }
            return 1;
        }
        let digit = (c as u32 - '0' as u32) as usize;
        proof {
            lemma_digits_prefix(body, k - i);
            assert(body[k - i] == c);
        }
        match value.checked_mul(10) {
            Some(tens) => match tens.checked_add(digit) {
                Some(next) => {
                    value = next;
                },
                None => {
                    proof {
                        if all_digits(body) {
                            lemma_digits_grow(body, k - i + 1);
                        }
                    }
                    return 1;
                },
            },
            None => {
                proof {
                    if all_digits(body) {
                        lemma_digits_grow(body, k - i + 1);
                    }
                }
                return 1;
            },
        }
        k = k + 1;
    }
    proof {
        assert(body.take(end - i) =~= body);
        assert(all_digits(body)) by {
            assert forall|j: int| 0 <= j < body.len() implies '0' <= #[trigger] body[j] <= '9' by {
                assert(body[j] == s[i + j]);
            }
        }
    }
    value
}

/// A digit string spells at least as much as any of its prefixes.
proof fn lemma_digits_grow(s: Seq<char>, n: int)
    requires
        0 <= n <= s.len(),
        all_digits(s),
    ensures
        digits_value(s.take(n)) <= digits_value(s),
    decreases s.len() - n,
{
    if n < s.len() {
        lemma_digits_prefix(s, n);
        assert('0' <= s[n] <= '9');
        lemma_digits_grow(s, n + 1);
    } else {
        assert(s.take(n) =~= s);
    }
}

} // verus!
