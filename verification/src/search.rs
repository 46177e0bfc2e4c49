//! Where one sequence stands inside another.
use vstd::prelude::*;

verus! {

/// `part` stands in `text` at place `i`.
pub open spec fn occurs_at<T>(text: Seq<T>, part: Seq<T>, i: int) -> bool {
    &&& 0 <= i
    &&& i + part.len() <= text.len()
    &&& text.subrange(i, i + part.len()) == part
}

/// `i` is the first place at which `part` stands in `text`.
pub open spec fn is_first_at<T>(text: Seq<T>, part: Seq<T>, i: int) -> bool {
    &&& occurs_at(text, part, i)
    &&& forall|j: int| 0 <= j < i ==> !#[trigger] occurs_at(text, part, j)
}

/// The first place at which `part` stands in `text`, if there is one.
pub open spec fn first_of<T>(text: Seq<T>, part: Seq<T>) -> Option<int> {
    if exists|i: int| is_first_at(text, part, i) {
        Some(choose|i: int| is_first_at(text, part, i))
    } else {
        None
    }
}

/// `item` stands in `text` at place `i` and nowhere before.
pub open spec fn is_first_item<T>(text: Seq<T>, item: T, i: int) -> bool {
    &&& 0 <= i < text.len()
    &&& text[i] == item
    &&& forall|j: int| 0 <= j < i ==> #[trigger] text[j] != item
}

/// The first place at which `item` stands in `text`, if there is one.
pub open spec fn first_item<T>(text: Seq<T>, item: T) -> Option<int> {
    if exists|i: int| is_first_item(text, item, i) {
        Some(choose|i: int| is_first_item(text, item, i))
    } else {
        None
    }
}

/// There is at most one first place.
pub(crate) proof fn lemma_first_of<T>(text: Seq<T>, part: Seq<T>, i: int)
    requires
        is_first_at(text, part, i),
    ensures
        first_of(text, part) == Some(i),
{
    let k = choose|k: int| is_first_at(text, part, k);
}

/// Where `part` stands nowhere in `text`, there is no first place.
pub(crate) proof fn lemma_no_first_of<T>(text: Seq<T>, part: Seq<T>)
    requires
        forall|j: int| 0 <= j <= text.len() - part.len() ==> !#[trigger] occurs_at(text, part, j),
    ensures
        first_of(text, part) is None,
{
}

/// What stands somewhere has a first place.
pub(crate) proof fn lemma_first_of_some<T>(text: Seq<T>, part: Seq<T>, i: int)
    requires
        occurs_at(text, part, i),
    ensures
        first_of(text, part) is Some,
    decreases i,
{
    if exists|j: int| 0 <= j < i && #[trigger] occurs_at(text, part, j) {
        let j = choose|j: int| 0 <= j < i && #[trigger] occurs_at(text, part, j);
        lemma_first_of_some(text, part, j);
    } else {
        assert(is_first_at(text, part, i));
    }
}

/// There is at most one first place of an item.
pub(crate) proof fn lemma_first_item<T>(text: Seq<T>, item: T, i: int)
    requires
        is_first_item(text, item, i),
    ensures
        first_item(text, item) == Some(i),
{
    let k = choose|k: int| is_first_item(text, item, k);
}

/// The first place of `needle` in `haystack`.
pub fn find_subsequence(haystack: &[u8], needle: &[u8]) -> (r: Option<usize>)
    requires
        needle@.len() > 0,
    ensures
        match r {
            Some(i) => {
                &&& is_first_at(haystack@, needle@, i as int)
                &&& first_of(haystack@, needle@) == Some(i as int)
            },
            None => {
                &&& forall|j: int| !occurs_at(haystack@, needle@, j)
                &&& first_of(haystack@, needle@) is None
            },
        },
{
    let n = needle.len();
    if haystack.len() < n {
        proof {
            lemma_no_first_of(haystack@, needle@);
        }
        return None;
    }
    let last = haystack.len() - n;
    for i in 0..last + 1
        invariant
            n == needle@.len(),
            last == haystack@.len() - n,
            last + n <= usize::MAX,
            forall|j: int| 0 <= j < i ==> !#[trigger] occurs_at(haystack@, needle@, j),
    {
        let mut k: usize = 0;
        while k < n && haystack[i + k] == needle[k]
            invariant
                n == needle@.len(),
                last == haystack@.len() - n,
                last + n <= usize::MAX,
                i <= last,
                k <= n,
                forall|m: int| 0 <= m < k ==> haystack@[i + m] == #[trigger] needle@[m],
            decreases n - k,
        {
            k = k + 1;
        }
        if k == n {
            assert(haystack@.subrange(i as int, i + needle@.len()) =~= needle@);
            proof {
                lemma_first_of(haystack@, needle@, i as int);
            }
            return Some(i);
        }
        assert(!occurs_at(haystack@, needle@, i as int)) by {
            if occurs_at(haystack@, needle@, i as int) {
                assert(haystack@.subrange(i as int, i + needle@.len())[k as int]
                    == haystack@[i + k]);
            }
        }
    }
    proof {
        lemma_no_first_of(haystack@, needle@);
    }
    None
}

/// The first place of the byte `item` in `text` from place `from` on, counted
/// from there.
pub(crate) fn find_byte(text: &[u8], from: usize, item: u8) -> (r: Option<usize>)
    requires
        from <= text@.len(),
    ensures
        match r {
            Some(i) => first_item(text@.skip(from as int), item) == Some(i as int)
                && is_first_item(text@.skip(from as int), item, i as int),
            None => first_item(text@.skip(from as int), item) is None,
        },
{
    for i in 0..text.len() - from
        invariant
            from <= text@.len(),
            forall|j: int| 0 <= j < i ==> #[trigger] text@.skip(from as int)[j] != item,
    {
        if text[from + i] == item {
            proof {
                lemma_first_item(text@.skip(from as int), item, i as int);
            }
            return Some(i);
        }
    }
    None
}

} // verus!
