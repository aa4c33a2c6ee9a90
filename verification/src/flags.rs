//! Sets of small indices kept as a vector of membership flags.

use vstd::prelude::*;

verus! {

/// The indices whose flag is raised.
pub open spec fn flagged(flags: Seq<bool>) -> Set<usize> {
    Set::new(|i: usize| i < flags.len() && flags[i as int])
}

pub fn flag_at(flags: &Vec<bool>, index: usize) -> (r: bool)
    ensures
        r == flagged(flags@).contains(index),
{
    index < flags.len() && flags[index]
}

/// Raises the flag at `index`, growing the vector as far as needed.
pub fn raise_flag(flags: &mut Vec<bool>, index: usize)
    ensures
        flagged(final(flags)@) == flagged(old(flags)@).insert(index),
        final(flags)@.len() == if index < old(flags)@.len() {
            old(flags)@.len() as int
        } else {
            index + 1
        },
{
    while flags.len() <= index
        invariant
            flagged(flags@) == flagged(old(flags)@),
            old(flags)@.len() <= flags@.len(),
            flags@.len() <= index + 1 || flags@.len() == old(flags)@.len(),
        decreases index + 1 - flags@.len(),
    {
        let ghost before = flags@;
        flags.push(false);
        assert(flagged(flags@) =~= flagged(before));
    }
    let ghost before = flags@;
    flags[index] = true;
    assert(flagged(flags@) =~= flagged(before).insert(index));
}

/// Lowers the flag at `index`.
pub fn lower_flag(flags: &mut Vec<bool>, index: usize)
    ensures
        flagged(final(flags)@) == flagged(old(flags)@).remove(index),
        final(flags)@.len() == old(flags)@.len(),
{
    if index < flags.len() {
        flags[index] = false;
    }
    assert(flagged(flags@) =~= flagged(old(flags)@).remove(index));
}

/// Whether every raised flag of `inner` is raised in `outer` too.
pub fn flags_subset(inner: &Vec<bool>, outer: &Vec<bool>) -> (r: bool)
    ensures
        r == flagged(inner@).subset_of(flagged(outer@)),
{
    let mut i: usize = 0;
    while i < inner.len()
        invariant
            i <= inner@.len(),
            forall|j: usize| j < i && flagged(inner@).contains(j) ==> flagged(outer@).contains(j),
        decreases inner@.len() - i,
    {
        if inner[i] && !flag_at(outer, i) {
            assert(flagged(inner@).contains(i));
            return false;
        }
        i += 1;
    }
    true
}

/// Whether no flag is raised in both vectors.
pub fn flags_disjoint(a: &Vec<bool>, b: &Vec<bool>) -> (r: bool)
    ensures
        r == flagged(a@).disjoint(flagged(b@)),
{
    let mut i: usize = 0;
    while i < a.len()
        invariant
            i <= a@.len(),
            forall|j: usize| j < i ==> !(flagged(a@).contains(j) && flagged(b@).contains(j)),
        decreases a@.len() - i,
    {
        if a[i] && flag_at(b, i) {
            assert(flagged(a@).contains(i) && flagged(b@).contains(i));
            return false;
        }
        i += 1;
    }
    true
}

/// A copy with the same flags.
pub fn copy_flags(flags: &Vec<bool>) -> (r: Vec<bool>)
    ensures
        r@ == flags@,
{
    let mut out: Vec<bool> = Vec::new();
    let mut i: usize = 0;
    while i < flags.len()
        invariant
            i <= flags@.len(),
            out@ == flags@.take(i as int),
        decreases flags@.len() - i,
    {
        out.push(flags[i]);
        assert(out@ =~= flags@.take(i as int + 1));
        i += 1;
    }
    assert(flags@.take(flags@.len() as int) =~= flags@);
    out
}

/// Whether no flag is raised.
pub fn no_flag(flags: &Vec<bool>) -> (r: bool)
    ensures
        r == (flagged(flags@) == Set::<usize>::empty()),
{
    let mut i: usize = 0;
    while i < flags.len()
        invariant
            i <= flags@.len(),
            forall|j: usize| j < i ==> !flagged(flags@).contains(j),
        decreases flags@.len() - i,
    {
        if flags[i] {
            assert(flagged(flags@).contains(i));
            return false;
        }
        i += 1;
    }
    assert(flagged(flags@) =~= Set::<usize>::empty());
    true
}

/// The smallest index whose flag is raised in both vectors.
pub fn first_common_flag(a: &Vec<bool>, b: &Vec<bool>) -> (r: Option<usize>)
    ensures
        match r {
            Some(i) => flagged(a@).contains(i) && flagged(b@).contains(i) && forall|j: usize|
                j < i ==> !(flagged(a@).contains(j) && flagged(b@).contains(j)),
            None => flagged(a@).disjoint(flagged(b@)),
        },
{
    let mut i: usize = 0;
    while i < a.len()
        invariant
            i <= a@.len(),
            forall|j: usize| j < i ==> !(flagged(a@).contains(j) && flagged(b@).contains(j)),
        decreases a@.len() - i,
    {
        if a[i] && flag_at(b, i) {
            return Some(i);
        }
        i += 1;
    }
    None
}

} // verus!
