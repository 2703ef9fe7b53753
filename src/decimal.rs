use vstd::prelude::*;

verus! {

/// One more than the largest `u32`: parsed values are held capped at it.
pub const CAP: u64 = 0x1_0000_0000;

/// ASCII whitespace: space, tab, line feed, vertical tab, form feed, carriage return.
pub open spec fn is_space(b: u8) -> bool {
    b == 0x20 || (0x09 <= b && b <= 0x0d)
}

/// An ASCII decimal digit.
pub open spec fn is_digit(b: u8) -> bool {
    0x30 <= b && b <= 0x39
}

/// Every byte is whitespace or a decimal digit.
pub open spec fn well_formed(s: Seq<u8>) -> bool {
    forall|i: int| 0 <= i < s.len() ==> is_space(#[trigger] s[i]) || is_digit(s[i])
}

/// The values of the maximal runs of non-whitespace bytes of `s`, each read
/// as a decimal number, in order.
pub open spec fn numbers(s: Seq<u8>) -> Seq<int>
    decreases s.len(),
{
    if s.len() == 0 {
        Seq::empty()
    } else {
        let prev = numbers(s.drop_last());
        let d = s.last() as int - 0x30;
        if is_space(s.last()) {
            prev
        } else if s.len() >= 2 && !is_space(s[s.len() - 2]) {
            prev.update(prev.len() - 1, prev.last() * 10 + d)
        } else {
            prev.push(d)
        }
    }
}

/// Every number fits in `u32`.
pub open spec fn all_fit(v: Seq<int>) -> bool {
    forall|i: int| 0 <= i < v.len() ==> #[trigger] v[i] <= u32::MAX
}

/// `x` capped at `CAP`.
pub open spec fn capped(x: int) -> int {
    if x < CAP {
        x
    } else {
        CAP as int
    }
}

/// A prefix that ends inside a run of digits has at least one number, and
/// every number of a well-formed text is non-negative.
proof fn lemma_numbers_shape(s: Seq<u8>)
    requires
        well_formed(s),
    ensures
        s.len() > 0 && !is_space(s.last()) ==> numbers(s).len() > 0,
        forall|i: int| 0 <= i < numbers(s).len() ==> #[trigger] numbers(s)[i] >= 0,
    decreases s.len(),
{
    if s.len() > 0 {
        assert(well_formed(s.drop_last())) by {
            assert forall|i: int| 0 <= i < s.drop_last().len() implies is_space(
                #[trigger] s.drop_last()[i],
            ) || is_digit(s.drop_last()[i]) by {
                assert(s.drop_last()[i] == s[i]);
            }
        }
        lemma_numbers_shape(s.drop_last());
        assert(is_space(s[s.len() - 1]) || is_digit(s[s.len() - 1]));
        if s.len() >= 2 && !is_space(s[s.len() - 2]) {
            assert(s.drop_last().last() == s[s.len() - 2]);
        }
    }
}

/// Reads whitespace-separated decimal numbers. Returns `None` when a byte is
/// neither whitespace nor a digit, or when a number does not fit in `u32`.
pub fn parse_numbers(text: &[u8]) -> (r: Option<Vec<u32>>)
    ensures
        !well_formed(text@) ==> r is None,
        well_formed(text@) && !all_fit(numbers(text@)) ==> r is None,
        well_formed(text@) && all_fit(numbers(text@)) ==> (r is Some && r->Some_0@.map_values(
            |x: u32| x as int,
        ) == numbers(text@)),
{
    let mut values: Vec<u64> = Vec::new();
    let mut in_number = false;
    let mut i: usize = 0;
    while i < text.len()
        invariant
            i <= text@.len(),
            well_formed(text@.take(i as int)),
            values@.len() == numbers(text@.take(i as int)).len(),
            forall|k: int|
                0 <= k < values@.len() ==> #[trigger] values@[k] as int == capped(
                    numbers(text@.take(i as int))[k],
                ),
            in_number == (i > 0 && !is_space(text@[i - 1])),
        decreases text@.len() - i,
    {
        let b = text[i];
        let ghost pre = text@.take(i as int);
        let ghost next = text@.take(i + 1);
        proof {
            assert(next.drop_last() =~= pre);
            assert(next.last() == b);
        }
        let space = b == 0x20 || (0x09 <= b && b <= 0x0d);
        if !space && !(0x30 <= b && b <= 0x39) {
            assert(!(is_space(text@[i as int]) || is_digit(text@[i as int])));
            return None;
        }
        proof {
            assert(well_formed(next)) by {
                assert forall|k: int| 0 <= k < next.len() implies is_space(#[trigger] next[k])
                    || is_digit(next[k]) by {
                    if k < i {
                        assert(next[k] == pre[k]);
                    }
                }
            }
            lemma_numbers_shape(pre);
            lemma_numbers_shape(next);
            if i >= 1 {
                assert(next[next.len() - 2] == text@[i - 1]);
            }
        }
        if !space {
            let d = (b - 0x30) as u64;
            if in_number {
                let last = values.len() - 1;
                let v = values[last];
                let ghost old_value = numbers(pre)[last as int];
                let w: u64 = if v * 10 + d < CAP {
                    v * 10 + d
                } else {
                    CAP
                };
                proof {
                    assert(w as int == capped(old_value * 10 + d as int));
                }
                values.set(last, w);
            } else {
                values.push(d);
            }
        }
        proof {
            assert forall|k: int| 0 <= k < values@.len() implies #[trigger] values@[k] as int
                == capped(numbers(next)[k]) by {}
        }
        in_number = !space;
        i = i + 1;
    }
    proof {
        assert(text@.take(i as int) =~= text@);
    }
    let mut out: Vec<u32> = Vec::new();
    let mut j: usize = 0;
    while j < values.len()
        invariant
            j <= values@.len(),
            values@.len() == numbers(text@).len(),
            forall|k: int|
                0 <= k < values@.len() ==> #[trigger] values@[k] as int == capped(
                    numbers(text@)[k],
                ),
            out@.len() == j,
            forall|k: int| 0 <= k < j ==> #[trigger] out@[k] as int == numbers(text@)[k],
        decreases values@.len() - j,
    {
        if values[j] > 0xFFFF_FFFF {
            assert(!(numbers(text@)[j as int] <= u32::MAX));
            return None;
        }
        out.push(values[j] as u32);
        j = j + 1;
    }
    proof {
        assert(out@.map_values(|x: u32| x as int) =~= numbers(text@));
    }
    Some(out)
}

} // verus!
