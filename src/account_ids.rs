//! Splitting NEAR-style account ids (`a.b.c`) at their separators.
use vstd::prelude::*;
use vstd::string::*;

verus! {

/// Number of `.` separators in `s`.
pub open spec fn dot_count(s: Seq<char>) -> nat
    decreases s.len(),
{
    if s.len() == 0 {
        0
    } else {
        dot_count(s.drop_last()) + if s.last() == '.' {
            1nat
        } else {
            0nat
        }
    }
}

/// `i` is the position of the first `.` in `s`.
pub open spec fn is_first_dot(s: Seq<char>, i: int) -> bool {
    &&& 0 <= i < s.len()
    &&& s[i] == '.'
    &&& forall|j: int| 0 <= j < i ==> s[j] != '.'
}

/// The part before the first `.` and the part after it, if there is one.
pub open spec fn split_once_spec(s: Seq<char>) -> Option<(Seq<char>, Seq<char>)> {
    if exists|i: int| is_first_dot(s, i) {
        let i = choose|i: int| is_first_dot(s, i);
        Some((s.subrange(0, i), s.subrange(i + 1, s.len() as int)))
    } else {
        None
    }
}

proof fn lemma_first_dot_unique(s: Seq<char>, i: int)
    requires
        is_first_dot(s, i),
    ensures
        split_once_spec(s) == Some((s.subrange(0, i), s.subrange(i + 1, s.len() as int))),
{
    let c = choose|c: int| is_first_dot(s, c);
    assert(c == i) by {
        if c < i {
            assert(s[c] != '.');
        } else if c > i {
            assert(s[i] != '.');
        }
    }
}

/// Splits `account_id` at its first `.`.
pub fn split_once_at_dot(account_id: &String) -> (r: Option<(String, String)>)
    ensures
        r is None ==> split_once_spec(account_id@) is None && forall|j: int|
            0 <= j < account_id@.len() ==> account_id@[j] != '.',
        r matches Some((a, b)) ==> split_once_spec(account_id@) == Some((a@, b@)),
{
    let s = account_id.as_str();
    let len = s.unicode_len();
    let mut i: usize = 0;
    while i < len
        invariant
            i <= len,
            len == s@.len(),
            s@ == account_id@,
            forall|j: int| 0 <= j < i ==> s@[j] != '.',
        decreases len - i,
    {
        if s.get_char(i) == '.' {
            let first = String::from_str(s.substring_char(0, i));
            let second = String::from_str(s.substring_char(i + 1, len));
            proof {
                lemma_first_dot_unique(account_id@, i as int);
            }
            return Some((first, second));
        }
        i = i + 1;
    }
    None
}

/// Counts the `.` separators in `account_id`.
pub fn count_dots(account_id: &String) -> (r: usize)
    ensures
        r == dot_count(account_id@),
{
    let s = account_id.as_str();
    let len = s.unicode_len();
    let mut count: usize = 0;
    let mut i: usize = 0;
    while i < len
        invariant
            i <= len,
            len == s@.len(),
            s@ == account_id@,
            count == dot_count(s@.take(i as int)),
            count <= i,
        decreases len - i,
    {
        assert(s@.take(i + 1).drop_last() =~= s@.take(i as int));
        if s.get_char(i) == '.' {
            count = count + 1;
        }
        i = i + 1;
    }
    assert(s@.take(len as int) =~= s@);
    count
}

} // verus!
