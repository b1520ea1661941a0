use vstd::prelude::*;

verus! {

/// The probe order of the locator over `s` restricted to the closed index
/// range `[start, end]`: an inverted or out-of-bounds range yields `None`;
/// otherwise the range's first element is tested, then its last, then the
/// middle one, and failing those the left half is searched before the right.
///
/// The index returned for a repeated element is therefore fixed by this
/// discovery order, and is not in general the lowest index of an occurrence.
pub open spec fn probe(s: Seq<i32>, element: i32, start: int, end: int) -> Option<int>
    decreases end - start,
{
    if start < 0 || start > end || start >= s.len() || end >= s.len() {
        None
    } else {
        let middle: int = (start + end) / 2;
        if s[start] == element {
            Some(start)
        } else if s[end] == element {
            Some(end)
        } else if s[middle] == element {
            Some(middle)
        } else {
            let lhs = if middle <= start {
                None
            } else {
                probe(s, element, start, middle - 1)
            };
            let rhs = if middle >= end {
                None
            } else {
                probe(s, element, middle + 1, end)
            };
            if lhs is Some {
                lhs
            } else {
                rhs
            }
        }
    }
}

/// Locator absence, one half: any index the probe returns lies within the
/// requested range, within the sequence's bounds, and holds the element.
/// So an inverted range, an out-of-bounds range, or a range free of the
/// element can only yield `None`.
pub proof fn lemma_probe_sound(s: Seq<i32>, element: i32, start: int, end: int)
    ensures
        probe(s, element, start, end) matches Some(i) ==> start <= i <= end < s.len()
            && 0 <= start && s[i] == element,
    decreases end - start,
{
    if start < 0 || start > end || start >= s.len() || end >= s.len() {
    } else {
        let middle: int = (start + end) / 2;
        if s[start] == element {
        } else if s[end] == element {
        } else if s[middle] == element {
        } else {
            if middle > start {
                lemma_probe_sound(s, element, start, middle - 1);
            }
            if middle < end {
                lemma_probe_sound(s, element, middle + 1, end);
            }
        }
    }
}

/// Locator presence: a valid range that contains the element somewhere is
/// never answered with `None`.
pub proof fn lemma_probe_complete(s: Seq<i32>, element: i32, start: int, end: int)
    requires
        0 <= start <= end < s.len(),
        exists|k: int| start <= k <= end && s[k] == element,
    ensures
        probe(s, element, start, end) is Some,
    decreases end - start,
{
    let middle: int = (start + end) / 2;
    if s[start] == element {
    } else if s[end] == element {
    } else if s[middle] == element {
    } else {
        let k = choose|k: int| start <= k <= end && s[k] == element;
        if k < middle {
            assert(start <= k <= middle - 1 && s[k] == element);
            lemma_probe_complete(s, element, start, middle - 1);
        } else {
            assert(middle + 1 <= k <= end && s[k] == element);
            lemma_probe_complete(s, element, middle + 1, end);
        }
    }
}

} // verus!
