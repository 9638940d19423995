use vstd::prelude::*;

verus! {

// The contract-metadata provider's label derivation. The adapter fetches a
// contract's source metadata; the label an address gets out of it is the
// concatenation of the contract names the metadata lists, which is this
// module's verified logic.

/// The concatenation of a list of name fragments, in order.
pub open spec fn joined_names(items: Seq<String>) -> Seq<char>
    decreases items.len(),
{
    if items.len() == 0 {
        Seq::empty()
    } else {
        joined_names(items.drop_last()) + items.last()@
    }
}

/// The label a contract-metadata response yields: every contract name the
/// response lists, concatenated in order. An empty list yields the empty
/// label.
#[verifier::loop_isolation(false)]
pub fn metadata_to_label(names: &Vec<String>) -> (r: String)
    ensures
        r@ == joined_names(names@),
{
    let mut r = String::new();
    let mut i: usize = 0;
    while i < names.len()
        invariant
            i <= names@.len(),
            r@ == joined_names(names@.take(i as int)),
        decreases names@.len() - i,
    {
        r = r.concat(names[i].as_str());
        proof {
            assert(names@.take(i + 1).drop_last() =~= names@.take(i as int));
            assert(names@.take(i + 1).last() == names@[i as int]);
        }
        i += 1;
    }
    proof {
        assert(names@.take(names@.len() as int) =~= names@);
    }
    r
}

} // verus!
