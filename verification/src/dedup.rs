use vstd::prelude::*;
use crate::index::IdSet;
use crate::model::{Directive, DirectiveContent, DirectiveView};
use crate::text::text_list;

verus! {

/// Whether a directive has been imported before: it is a transaction and one
/// of its links is among the imported identifiers. Nothing else is compared.
pub open spec fn duplicate(d: DirectiveView, ids: Set<Seq<char>>) -> bool {
    d.content is Transaction && exists|k: int|
        0 <= k < d.content->Transaction_0.links.len() && ids.contains(#[trigger] d.content->Transaction_0.links[k])
}

/// Whether a directive has been imported before.
pub fn is_duplicate(d: &Directive, ids: &IdSet) -> (r: bool)
    ensures
        r == duplicate(d@, ids@),
{
    match &d.content {
        DirectiveContent::Transaction(t) => {
            let mut k: usize = 0;
            while k < t.links.len()
                invariant
                    k <= t.links@.len(),
                    d.content == DirectiveContent::Transaction(*t),
                    forall|j: int| 0 <= j < k ==> !ids@.contains(#[trigger] text_list(t.links@)[j]),
                decreases t.links@.len() - k,
            {
                if ids.contains(&t.links[k]) {
                    assert(ids@.contains(d@.content->Transaction_0.links[k as int]));
                    return true;
                }
                k += 1;
            }
            false
        },
        _ => false,
    }
}

} // verus!
