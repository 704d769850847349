use vstd::prelude::*;

verus! {

/// Whether `i` is the position of the first `needle` in `hay`.
pub open spec fn is_first_index(hay: Seq<u8>, needle: u8, i: int) -> bool {
    &&& 0 <= i < hay.len()
    &&& hay[i] == needle
    &&& forall|j: int| 0 <= j < i ==> hay[j] != needle
}

/// Whether `i` is the position of the last `needle` in `hay`.
pub open spec fn is_last_index(hay: Seq<u8>, needle: u8, i: int) -> bool {
    &&& 0 <= i < hay.len()
    &&& hay[i] == needle
    &&& forall|j: int| i < j < hay.len() ==> hay[j] != needle
}

/// What a forward byte search answers: the first position of `needle`,
/// or `None` when the haystack does not hold it.
pub open spec fn first_index_result(hay: Seq<u8>, needle: u8, r: Option<usize>) -> bool {
    match r {
        Some(i) => is_first_index(hay, needle, i as int),
        None => forall|j: int| 0 <= j < hay.len() ==> hay[j] != needle,
    }
}

/// What a backward byte search answers: the last position of `needle`,
/// or `None` when the haystack does not hold it.
pub open spec fn last_index_result(hay: Seq<u8>, needle: u8, r: Option<usize>) -> bool {
    match r {
        Some(i) => is_last_index(hay, needle, i as int),
        None => forall|j: int| 0 <= j < hay.len() ==> hay[j] != needle,
    }
}

/// Relies on `memchr::memchr`: the index of the first occurrence of `needle`
/// in `hay`, or `None` if there is none.
#[verifier::external_body]
pub(crate) fn find_byte(needle: u8, hay: &[u8]) -> (r: Option<usize>)
    ensures
        first_index_result(hay@, needle, r),
{
    memchr::memchr(needle, hay)
}

/// Relies on `memchr::memrchr`: the index of the last occurrence of `needle`
/// in `hay`, or `None` if there is none.
#[verifier::external_body]
pub(crate) fn rfind_byte(needle: u8, hay: &[u8]) -> (r: Option<usize>)
    ensures
        last_index_result(hay@, needle, r),
{
    memchr::memrchr(needle, hay)
}

} // verus!
