//! Searching in slices.

use vstd::prelude::*;

verus! {

/// Searches `buffer` for the first element equal to `value` and returns its
/// index, or `None` if `value` is not present.
///
/// The scan looks at sixteen elements at a time.
pub fn position_of_any_bool(buffer: &[bool], value: bool) -> (r: Option<usize>)
    ensures
        r is None <==> !buffer@.contains(value),
        r matches Some(i) ==> {
            &&& i < buffer@.len()
            &&& buffer@[i as int] == value
            &&& forall|j: int| 0 <= j < i ==> #[trigger] buffer@[j] != value
        },
{
    let len: usize = buffer.len();
    let mut i: usize = 0;
    while len - i >= 16
        invariant
            len == buffer@.len(),
            i <= len,
            forall|j: int| 0 <= j < i ==> #[trigger] buffer@[j] != value,
        decreases len - i,
    {
        if chunk_holds(buffer, i, value) {
            return first_from(buffer, i, value);
        }
        i = i + 16;
    }
    first_from(buffer, i, value)
}

/// Whether one of the sixteen elements from `from` on equals `value`.
fn chunk_holds(buffer: &[bool], from: usize, value: bool) -> (r: bool)
    requires
        from + 16 <= buffer@.len(),
    ensures
        r <==> exists|j: int| from <= j < from + 16 && #[trigger] buffer@[j] == value,
{
    let len: usize = buffer.len();
    let mut j: usize = 0;
    while j < 16
        invariant
            len == buffer@.len(),
            from + 16 <= len,
            j <= 16,
            forall|k: int| from <= k < from + j ==> #[trigger] buffer@[k] != value,
        decreases 16 - j,
    {
        if buffer[from + j] == value {
            return true;
        }
        j = j + 1;
    }
    false
}

/// The first element from `from` on that equals `value`.
fn first_from(buffer: &[bool], from: usize, value: bool) -> (r: Option<usize>)
    requires
        from <= buffer@.len(),
        forall|j: int| 0 <= j < from ==> #[trigger] buffer@[j] != value,
    ensures
        r is None <==> !buffer@.contains(value),
        r matches Some(i) ==> {
            &&& from <= i < buffer@.len()
            &&& buffer@[i as int] == value
            &&& forall|j: int| 0 <= j < i ==> #[trigger] buffer@[j] != value
        },
{
    let mut i: usize = from;
    while i < buffer.len()
        invariant
            from <= i <= buffer@.len(),
            forall|j: int| 0 <= j < i ==> #[trigger] buffer@[j] != value,
        decreases buffer@.len() - i,
    {
        if buffer[i] == value {
            return Some(i);
        }
        i = i + 1;
    }
    None
}

} // verus!
