//! Dotted paths into a configuration: taking the first and the last key off.
use vstd::prelude::*;
use vstd::string::StrSliceExecFns;

verus! {

/// Whether `split` is `path` cut before its first dot, or at its end if it
/// has none.
pub open spec fn cut_at_first_dot(path: Seq<char>, split: (Seq<char>, Seq<char>)) -> bool {
    &&& split.0 + split.1 == path
    &&& !split.0.contains('.')
    &&& split.1.len() > 0 ==> split.1[0] == '.'
}

/// Whether `split` is `path` cut before its last dot, or at its start if it
/// has none.
pub open spec fn cut_at_last_dot(path: Seq<char>, split: (Seq<char>, Seq<char>)) -> bool {
    &&& split.0 + split.1 == path
    &&& forall|j: int| 1 <= j < split.1.len() ==> split.1[j] != '.'
    &&& split.0.len() > 0 ==> split.1[0] == '.'
}

/// The first key of `path` and the rest, which begins with the dot behind
/// that key if there is one.
pub fn split_first_key(path: &str) -> (r: (&str, &str))
    requires
        path@.len() > 0,
    ensures
        cut_at_first_dot(path@, (r.0@, r.1@)),
{
    let len = path.unicode_len();
    let mut i: usize = 0;
    while i < len && path.get_char(i) != '.'
        invariant
            i <= len,
            len == path@.len(),
            forall|j: int| 0 <= j < i ==> path@[j] != '.',
        decreases len - i,
    {
        i = i + 1;
    }
    let key = path.substring_char(0, i);
    let rest = path.substring_char(i, len);
    assert(key@ + rest@ =~= path@);
    (key, rest)
}

/// What is before the last key of `path`, and the last key with the dot
/// before it if there is one.
pub fn split_last_key(path: &str) -> (r: (&str, &str))
    requires
        path@.len() > 0,
    ensures
        cut_at_last_dot(path@, (r.0@, r.1@)),
{
    let len = path.unicode_len();
    let mut i: usize = len - 1;
    while i > 0 && path.get_char(i) != '.'
        invariant
            i < len,
            len == path@.len(),
            forall|j: int| i < j < len ==> path@[j] != '.',
        decreases i,
    {
        i = i - 1;
    }
    let front = path.substring_char(0, i);
    let key = path.substring_char(i, len);
    assert(front@ + key@ =~= path@);
    (front, key)
}

} // verus!
