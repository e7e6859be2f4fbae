//! The integer key order that the `BTreeMap` specifications rely on.
use vstd::prelude::*;

verus! {

broadcast use vstd::laws_cmp::group_laws_cmp;

/// `usize` keys obey the order model under which `BTreeMap` is specified.
pub proof fn lemma_usize_key_order()
    ensures
        vstd::laws_cmp::obeys_cmp::<usize>(),
{
}

} // verus!
