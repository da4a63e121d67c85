use vstd::prelude::*;

verus! {

/// `v` is the smallest value of `s`.
pub open spec fn is_min_of(s: Seq<usize>, v: usize) -> bool {
    &&& exists|i: int| 0 <= i < s.len() && s[i] == v
    &&& forall|i: int| 0 <= i < s.len() ==> v <= s[i]
}

/// `v` is the greatest value of `s`.
pub open spec fn is_max_of(s: Seq<usize>, v: usize) -> bool {
    &&& exists|i: int| 0 <= i < s.len() && s[i] == v
    &&& forall|i: int| 0 <= i < s.len() ==> s[i] <= v
}

/// Returns the least and the greatest value simultaneously, as `[min, max]`.
///
/// An accessor applied to each value before comparing is not supported:
/// `value_of` must be `None`.
pub fn extent<F: Fn(usize, usize, usize) -> usize>(values: Vec<usize>, value_of: &Option<F>) -> (r: [usize; 2])
    requires
        values.len() > 0,
        value_of.is_none(),
    ensures
        is_min_of(values@, r[0]),
        is_max_of(values@, r[1]),
{
    let mut min: usize = values[0];
    let mut max: usize = values[0];
    let mut i: usize = 1;
    while i < values.len()
        invariant
            1 <= i <= values.len(),
            exists|k: int| 0 <= k < i && values@[k] == min,
            exists|k: int| 0 <= k < i && values@[k] == max,
            forall|k: int| 0 <= k < i ==> min <= #[trigger] values@[k] <= max,
        decreases values.len() - i,
    {
        let value = values[i];
        if min > value {
            min = value;
        }
        if max < value {
            max = value;
        }
        i = i + 1;
    }
    [min, max]
}

} // verus!
