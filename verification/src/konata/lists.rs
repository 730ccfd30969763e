//! Comma-separated name lists, as the view settings hold them.
use vstd::prelude::*;
use crate::keys::{is_white_space, trimmed, white_space};
use crate::konata::texts::chars_of;

verus! {

/// The pieces of `s` between occurrences of `sep`, as `str::split(sep)` yields them.
pub open spec fn pieces(s: Seq<char>, sep: char) -> Seq<Seq<char>>
    decreases s.len(),
{
    if s.len() == 0 {
        seq![Seq::<char>::empty()]
    } else {
        let p = pieces(s.drop_last(), sep);
        if s.last() == sep {
            p.push(Seq::<char>::empty())
        } else {
            p.update(p.len() - 1, p.last().push(s.last()))
        }
    }
}

/// `c` with an ASCII capital letter lowered.
pub open spec fn ascii_lower(c: char) -> char {
    if 'A' <= c <= 'Z' {
        ((c as u32) + 32) as char
    } else {
        c
    }
}

/// Equal up to the case of ASCII letters.
pub open spec fn eq_ignore_ascii_case(a: Seq<char>, b: Seq<char>) -> bool {
    a.len() == b.len() && forall|i: int| 0 <= i < a.len() ==> ascii_lower(#[trigger] a[i]) == ascii_lower(b[i])
}

/// A trimmed piece names `value` (exactly, or up to ASCII case).
pub open spec fn piece_names(piece: Seq<char>, value: Seq<char>, case_sensitive: bool) -> bool {
    if case_sensitive {
        trimmed(piece) == value
    } else {
        eq_ignore_ascii_case(trimmed(piece), value)
    }
}

/// Some piece of the comma-separated `list`, trimmed, names `value`.
pub open spec fn list_names(list: Seq<char>, value: Seq<char>, case_sensitive: bool) -> bool {
    exists|i: int| 0 <= i < pieces(list, ',').len() && piece_names(#[trigger] pieces(list, ',')[i], value, case_sensitive)
}

fn lower(c: char) -> (l: char)
    ensures
        l == ascii_lower(c),
{
    if 'A' <= c && c <= 'Z' {
        ((c as u32) + 32) as u8 as char
    } else {
        c
    }
}

/// The bounds of `s[a..b]` with the white space at both ends left out.
pub(crate) fn trim_range(s: &Vec<char>, a: usize, b: usize) -> (range: (usize, usize))
    requires
        a <= b <= s.len(),
    ensures
        a <= range.0 <= range.1 <= b,
        trimmed(s@.subrange(a as int, b as int)) == s@.subrange(range.0 as int, range.1 as int),
{
    let ghost piece = s@.subrange(a as int, b as int);
    let mut start = a;
    while start < b && white_space(s[start])
        invariant
            a <= start <= b <= s.len(),
            forall|j: int| a <= j < start ==> is_white_space(#[trigger] s@[j]),
        decreases b - start,
    {
        start = start + 1;
    }
    let mut end = b;
    while end > start && white_space(s[end - 1])
        invariant
            start <= end <= b <= s.len(),
            forall|j: int| end <= j < b ==> is_white_space(#[trigger] s@[j]),
        decreases end - start,
    {
        end = end - 1;
    }
    let ghost t = s@.subrange(start as int, end as int);
    proof {
        assert forall|j: int| 0 <= j < start - a implies is_white_space(#[trigger] piece[j]) by {
            assert(piece[j] == s@[a + j]);
        }
        if start < b {
            assert(piece[start - a] == s@[start as int]);
        }
        crate::keys::lemma_strip_front(piece, start - a);
        let front = piece.subrange(start - a, piece.len() as int);
        assert forall|j: int| end - start <= j < front.len() implies is_white_space(#[trigger] front[j]) by {
            assert(front[j] == s@[start + j]);
        }
        if end > start {
            assert(front[end - start - 1] == s@[end - 1]);
        }
        crate::keys::lemma_strip_back(front, end - start);
        assert(front.subrange(0, end - start) =~= t);
        assert(trimmed(piece) == t);
    }
    (start, end)
}

/// Whether `s[a..b]`, trimmed, names `value`.
fn piece_matches(s: &Vec<char>, a: usize, b: usize, value: &Vec<char>, case_sensitive: bool) -> (m: bool)
    requires
        a <= b <= s.len(),
    ensures
        m == piece_names(s@.subrange(a as int, b as int), value@, case_sensitive),
{
    let (start, end) = trim_range(s, a, b);
    let ghost t = s@.subrange(start as int, end as int);
    if end - start != value.len() {
        return false;
    }
    let mut k: usize = 0;
    while k < value.len()
        invariant
            k <= value.len() == end - start,
            start <= end <= s.len(),
            t == s@.subrange(start as int, end as int),
            a <= b <= s.len(),
            trimmed(s@.subrange(a as int, b as int)) == t,
            forall|j: int|
                0 <= j < k ==> (if case_sensitive {
                    t[j] == value@[j]
                } else {
                    ascii_lower(#[trigger] t[j]) == ascii_lower(value@[j])
                }),
        decreases value.len() - k,
    {
        let x = s[start + k];
        let y = value[k];
        proof {
            assert(t[k as int] == x);
        }
        let same = if case_sensitive {
            x == y
        } else {
            lower(x) == lower(y)
        };
        if !same {
            proof {
                if case_sensitive {
                    assert(t[k as int] != value@[k as int]);
                } else {
                    assert(ascii_lower(t[k as int]) != ascii_lower(value@[k as int]));
                }
            }
            return false;
        }
        k = k + 1;
    }
    proof {
        if case_sensitive {
            assert(t =~= value@);
        }
    }
    true
}

proof fn lemma_pieces_step(s: Seq<char>, i: int, sep: char)
    requires
        0 <= i < s.len(),
    ensures
        pieces(s.take(i + 1), sep) == if s[i] == sep {
            pieces(s.take(i), sep).push(Seq::<char>::empty())
        } else {
            pieces(s.take(i), sep).update(pieces(s.take(i), sep).len() - 1, pieces(s.take(i), sep).last().push(s[i]))
        },
{
    assert(s.take(i + 1).drop_last() =~= s.take(i));
    assert(s.take(i + 1).last() == s[i]);
}

/// The bounds of the pieces of `s` between occurrences of `sep`, in order.
pub(crate) fn piece_bounds(s: &Vec<char>, sep: char) -> (bounds: Vec<(usize, usize)>)
    ensures
        bounds@.len() >= 1,
        bounds@.len() == pieces(s@, sep).len(),
        forall|k: int|
            0 <= k < bounds@.len() ==> (#[trigger] bounds@[k]).0 <= bounds@[k].1 <= s@.len()
                && s@.subrange(bounds@[k].0 as int, bounds@[k].1 as int) == pieces(s@, sep)[k],
{
    let mut bounds: Vec<(usize, usize)> = Vec::new();
    let mut start: usize = 0;
    let mut i: usize = 0;
    proof {
        assert(s@.take(0) =~= Seq::<char>::empty());
        assert(s@.subrange(0, 0) =~= Seq::<char>::empty());
    }
    while i < s.len()
        invariant
            start <= i <= s.len(),
            pieces(s@.take(i as int), sep).len() == bounds@.len() + 1,
            pieces(s@.take(i as int), sep).last() == s@.subrange(start as int, i as int),
            forall|k: int|
                0 <= k < bounds@.len() ==> (#[trigger] bounds@[k]).0 <= bounds@[k].1 <= i
                    && s@.subrange(bounds@[k].0 as int, bounds@[k].1 as int) == pieces(s@.take(i as int), sep)[k],
        decreases s.len() - i,
    {
        let ghost before = pieces(s@.take(i as int), sep);
        let ghost old_bounds = bounds@;
        proof {
            lemma_pieces_step(s@, i as int, sep);
        }
        if s[i] == sep {
            bounds.push((start, i));
            proof {
                let after = pieces(s@.take(i + 1), sep);
                assert(after =~= before.push(Seq::<char>::empty()));
                assert forall|k: int| 0 <= k < bounds@.len() implies (#[trigger] bounds@[k]).0 <= bounds@[k].1 <= i + 1
                    && s@.subrange(bounds@[k].0 as int, bounds@[k].1 as int) == after[k] by {
                    if k < old_bounds.len() {
                        assert(bounds@[k] == old_bounds[k]);
                    } else {
                        assert(before[k] == before.last());
                    }
                }
                assert(s@.subrange(i + 1, i + 1) =~= Seq::<char>::empty());
            }
            start = i + 1;
        } else {
            proof {
                let after = pieces(s@.take(i + 1), sep);
                assert(after.len() == before.len());
                assert forall|k: int| 0 <= k < bounds@.len() implies (#[trigger] bounds@[k]).0 <= bounds@[k].1 <= i + 1
                    && s@.subrange(bounds@[k].0 as int, bounds@[k].1 as int) == after[k] by {
                    assert(after[k] == before[k]);
                }
                assert(after.last() == before.last().push(s@[i as int]));
                assert(after.last() =~= s@.subrange(start as int, i + 1));
            }
        }
        i = i + 1;
    }
    bounds.push((start, i));
    proof {
        assert(s@.take(i as int) =~= s@);
        let p = pieces(s@, sep);
        assert forall|k: int| 0 <= k < bounds@.len() implies (#[trigger] bounds@[k]).0 <= bounds@[k].1 <= s@.len()
            && s@.subrange(bounds@[k].0 as int, bounds@[k].1 as int) == p[k] by {
            if k == bounds@.len() - 1 {
                assert(p[k] == p.last());
            }
        }
    }
    bounds
}

/// Whether some comma-separated piece of `list`, trimmed, names `value` (exactly, or up
/// to ASCII case).
pub fn comma_list_matches(list: &str, value: &str, case_sensitive: bool) -> (m: bool)
    ensures
        m == list_names(list@, value@, case_sensitive),
{
    let s = chars_of(list);
    let v = chars_of(value);
    let mut found = false;
    let mut start: usize = 0;
    let mut i: usize = 0;
    let ghost mut done: int = 0;
    proof {
        assert(s@.take(0) =~= Seq::<char>::empty());
        assert(s@.subrange(0, 0) =~= Seq::<char>::empty());
    }
    while i < s.len()
        invariant
            start <= i <= s.len(),
            done >= 0,
            pieces(s@.take(i as int), ',').len() == done + 1,
            pieces(s@.take(i as int), ',').last() == s@.subrange(start as int, i as int),
            found == exists|j: int| 0 <= j < done && piece_names(#[trigger] pieces(s@.take(i as int), ',')[j], v@, case_sensitive),
        decreases s.len() - i,
    {
        let ghost before = pieces(s@.take(i as int), ',');
        proof {
            lemma_pieces_step(s@, i as int, ',');
        }
        if s[i] == ',' {
            let hit = piece_matches(&s, start, i, &v, case_sensitive);
            found = found || hit;
            proof {
                let after = pieces(s@.take(i + 1), ',');
                assert(after =~= before.push(Seq::<char>::empty()));
                assert forall|j: int| 0 <= j < done + 1 implies after[j] == before[j] by {}
                assert(after[done] == before[done]);
                assert(before[done] == before.last());
                if hit {
                    assert(piece_names(after[done], v@, case_sensitive));
                }
                done = done + 1;
                assert(s@.subrange(i + 1, i + 1) =~= Seq::<char>::empty());
            }
            start = i + 1;
        } else {
            proof {
                let after = pieces(s@.take(i + 1), ',');
                assert forall|j: int| 0 <= j < done implies after[j] == before[j] by {}
                assert(after.len() == before.len());
                assert(after.last() == before.last().push(s@[i as int]));
                assert(after.last() =~= s@.subrange(start as int, i + 1));
                if exists|j: int| 0 <= j < done && piece_names(#[trigger] before[j], v@, case_sensitive) {
                    let j = choose|j: int| 0 <= j < done && piece_names(#[trigger] before[j], v@, case_sensitive);
                    assert(piece_names(after[j], v@, case_sensitive));
                }
                if exists|j: int| 0 <= j < done && piece_names(#[trigger] after[j], v@, case_sensitive) {
                    let j = choose|j: int| 0 <= j < done && piece_names(#[trigger] after[j], v@, case_sensitive);
                    assert(piece_names(before[j], v@, case_sensitive));
                }
            }
        }
        i = i + 1;
    }
    let hit = piece_matches(&s, start, i, &v, case_sensitive);
    proof {
        assert(s@.take(i as int) =~= s@);
        let p = pieces(s@, ',');
        assert(p[done] == p.last());
        if hit {
            assert(piece_names(p[done], v@, case_sensitive));
        }
        if list_names(list@, value@, case_sensitive) && !found {
            let j = choose|j: int| 0 <= j < p.len() && piece_names(#[trigger] p[j], v@, case_sensitive);
            assert(j == done);
        }
    }
    found || hit
}

} // verus!
