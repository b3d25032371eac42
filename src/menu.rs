use vstd::prelude::*;
use vstd::arithmetic::div_mod::{lemma_mod_add_multiples_vanish, lemma_mod_self_0, lemma_small_mod};

verus! {

/// The entry above `selected` in a menu of `len` entries, wrapping from the
/// first to the last.
pub fn select_previous(selected: usize, len: usize) -> (r: usize)
    requires
        selected < len,
    ensures
        r == (selected + len - 1) % (len as int),
        r < len,
{
    if selected == 0 {
        proof {
            lemma_small_mod((len - 1) as nat, len as nat);
        }
        len - 1
    } else {
        proof {
            lemma_small_mod((selected - 1) as nat, len as nat);
            lemma_mod_add_multiples_vanish(selected - 1, len as int);
        }
        selected - 1
    }
}

/// The entry below `selected` in a menu of `len` entries, wrapping from the
/// last to the first.
pub fn select_next(selected: usize, len: usize) -> (r: usize)
    requires
        selected < len,
    ensures
        r == (selected + 1) % (len as int),
        r < len,
{
    if selected + 1 == len {
        proof {
            lemma_mod_self_0(len as int);
        }
        0
    } else {
        proof {
            lemma_small_mod((selected + 1) as nat, len as nat);
        }
        selected + 1
    }
}

} // verus!
