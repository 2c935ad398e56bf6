use vstd::prelude::*;

verus! {

/// The index of the first key that owns the note, given one ownership
/// verdict per configured key in caller-supplied order; `None` when no
/// key owns it.
pub open spec fn owner_index(owns: Seq<bool>) -> Option<int>
    decreases owns.len(),
{
    if owns.len() == 0 {
        None
    } else if owns.first() {
        Some(0)
    } else {
        match owner_index(owns.drop_first()) {
            Some(i) => Some(i + 1),
            None => None,
        }
    }
}

/// The first match is a match, nothing before it is, and `None` means no
/// match at all.
pub proof fn lemma_owner_index(owns: Seq<bool>)
    ensures
        match owner_index(owns) {
            Some(i) => 0 <= i < owns.len() && owns[i] && forall|j: int| 0 <= j < i ==> !owns[j],
            None => forall|j: int| 0 <= j < owns.len() ==> !owns[j],
        },
    decreases owns.len(),
{
    if owns.len() > 0 && !owns.first() {
        lemma_owner_index(owns.drop_first());
        match owner_index(owns.drop_first()) {
            Some(i) => {
                assert(owns[i + 1] == owns.drop_first()[i]);
                assert forall|j: int| 0 <= j < i + 1 implies !owns[j] by {
                    if j > 0 {
                        assert(owns[j] == owns.drop_first()[j - 1]);
                    }
                }
            },
            None => {
                assert forall|j: int| 0 <= j < owns.len() implies !owns[j] by {
                    if j > 0 {
                        assert(owns[j] == owns.drop_first()[j - 1]);
                    }
                }
            },
        }
    }
}

/// Ownership is exclusive: a note owned by exactly one configured key is
/// assigned to that key and to no other.
pub proof fn lemma_owner_exclusive(owns: Seq<bool>, k: int)
    requires
        0 <= k < owns.len(),
        owns[k],
        forall|j: int| 0 <= j < owns.len() && j != k ==> !owns[j],
    ensures
        owner_index(owns) == Some(k),
{
    lemma_owner_index(owns);
    match owner_index(owns) {
        Some(i) => {
            if i != k {
                if i < k {
                    assert(!owns[i]);
                } else {
                    assert(!owns[k]);
                }
            }
        },
        None => {
            assert(!owns[k]);
        },
    }
}

/// Picks the owner of a decoded note: the first key, in the
/// caller-supplied order, whose ownership verdict is positive.
///
/// First-match is the deliberate tie-break policy; a note that no key
/// owns is discarded by the caller, though its position is still
/// observed.
pub fn find_owner(owns: &Vec<bool>) -> (r: Option<usize>)
    ensures
        match r {
            Some(i) => owner_index(owns@) == Some(i as int),
            None => owner_index(owns@) is None,
        },
{
    proof {
        lemma_owner_index(owns@);
    }
    let mut i: usize = 0;
    while i < owns.len()
        invariant
            i <= owns@.len(),
            forall|j: int| 0 <= j < i ==> !owns@[j],
        decreases owns@.len() - i,
    {
        if owns[i] {
            proof {
                lemma_owner_exclusive_prefix(owns@, i as int);
            }
            return Some(i);
        }
        i = i + 1;
    }
    None
}

/// A positive verdict preceded only by negative ones is the first match.
proof fn lemma_owner_exclusive_prefix(owns: Seq<bool>, k: int)
    requires
        0 <= k < owns.len(),
        owns[k],
        forall|j: int| 0 <= j < k ==> !owns[j],
    ensures
        owner_index(owns) == Some(k),
{
    lemma_owner_index(owns);
    match owner_index(owns) {
        Some(i) => {
            if i < k {
                assert(!owns[i]);
            }
            if i > k {
                assert(!owns[k]);
            }
        },
        None => {
            assert(!owns[k]);
        },
    }
}

} // verus!
