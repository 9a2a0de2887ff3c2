//! Stable element identifiers and the shared id bookkeeping used by validation.

use vstd::prelude::*;

use crate::error::ModelError;
use crate::text::is_lower_alnum;

verus! {

/// A stable, human-readable element identifier (`[a-z0-9][a-z0-9-]*`).
#[derive(Debug, Hash)]
pub struct ElementId(pub String);

impl View for ElementId {
    type V = Seq<char>;

    open spec fn view(&self) -> Seq<char> {
        self.0@
    }
}

impl Clone for ElementId {
    fn clone(&self) -> (r: Self)
        ensures
            r == *self,
    {
        ElementId(self.0.clone())
    }
}

impl PartialEq for ElementId {
    fn eq(&self, other: &Self) -> (r: bool) {
        self.0 == other.0
    }
}

impl Eq for ElementId {

}

impl vstd::std_specs::cmp::PartialEqSpecImpl for ElementId {
    open spec fn obeys_eq_spec() -> bool {
        true
    }

    open spec fn eq_spec(&self, other: &ElementId) -> bool {
        self.0@ == other.0@
    }
}

/// A character allowed after the first position of an element id.
pub open spec fn is_id_continue(c: char) -> bool {
    is_lower_alnum(c) || c == '-'
}

/// The element-id grammar: non-empty, starts with `[a-z0-9]`, continues with `[a-z0-9-]`.
pub open spec fn valid_id(s: Seq<char>) -> bool {
    &&& s.len() > 0
    &&& is_lower_alnum(s[0])
    &&& forall|i: int| 1 <= i < s.len() ==> is_id_continue(#[trigger] s[i])
}

/// The views of a sequence of ids, in order.
pub open spec fn id_views(ids: Seq<ElementId>) -> Seq<Seq<char>> {
    ids.map_values(|e: ElementId| e@)
}

pub fn char_is_lower_alnum(c: char) -> (r: bool)
    ensures
        r == is_lower_alnum(c),
{
    ('a' <= c && c <= 'z') || ('0' <= c && c <= '9')
}

impl ElementId {
    pub fn new(value: String) -> (r: ElementId)
        ensures
            r@ == value@,
    {
        ElementId(value)
    }

    /// An id made from a string slice.
    pub fn from_str(value: &str) -> (r: ElementId)
        ensures
            r@ == value@,
    {
        ElementId(value.to_owned())
    }

    pub fn as_str(&self) -> (r: &str)
        ensures
            r@ == self@,
    {
        self.0.as_str()
    }

    pub fn is_valid(&self) -> (r: bool)
        ensures
            r == valid_id(self@),
    {
        let s = self.0.as_str();
        let n = s.unicode_len();
        if n == 0 {
            return false;
        }
        if !char_is_lower_alnum(s.get_char(0)) {
            return false;
        }
        let mut i: usize = 1;
        while i < n
            invariant
                n == s@.len(),
                s@ == self@,
                1 <= i <= n,
                forall|j: int| 1 <= j < i ==> is_id_continue(#[trigger] s@[j]),
            decreases n - i,
        {
            let c = s.get_char(i);
            if !(char_is_lower_alnum(c) || c == '-') {
                return false;
            }
            i = i + 1;
        }
        true
    }
}

/// Rejects an id that does not follow the element-id grammar.
pub fn validate_element_id(id: &ElementId) -> (r: Result<(), ModelError>)
    ensures
        r is Ok <==> valid_id(id@),
        r matches Err(e) ==> e matches ModelError::InvalidElementId { id: bad } && bad@ == id@,
{
    if id.is_valid() {
        Ok(())
    } else {
        Err(ModelError::InvalidElementId { id: id.clone() })
    }
}

/// Whether `ids` holds an id equal to `id`.
pub fn contains_id(ids: &Vec<ElementId>, id: &ElementId) -> (r: bool)
    ensures
        r == id_views(ids@).contains(id@),
{
    let mut i: usize = 0;
    while i < ids.len()
        invariant
            i <= ids.len(),
            forall|j: int| 0 <= j < i ==> ids@[j]@ != id@,
        decreases ids.len() - i,
    {
        if ids[i].0 == id.0 {
            assert(id_views(ids@)[i as int] == id@);
            return true;
        }
        i = i + 1;
    }
    assert(!id_views(ids@).contains(id@)) by {
        if id_views(ids@).contains(id@) {
            let k = choose|k: int| 0 <= k < id_views(ids@).len() && id_views(ids@)[k] == id@;
            assert(ids@[k]@ == id@);
        }
    }
    false
}

/// Records `id` as used, rejecting a duplicate.
pub fn insert_unique_id(ids: &mut Vec<ElementId>, id: &ElementId) -> (r: Result<(), ModelError>)
    ensures
        r is Ok <==> !id_views(old(ids)@).contains(id@),
        r is Ok ==> final(ids)@ == old(ids)@.push(*id),
        r is Err ==> final(ids)@ == old(ids)@,
        r matches Err(e) ==> e matches ModelError::DuplicateElementId { id: bad } && bad@ == id@,
{
    if contains_id(ids, id) {
        Err(ModelError::DuplicateElementId { id: id.clone() })
    } else {
        ids.push(id.clone());
        Ok(())
    }
}

/// Pushing an id pushes its view.
pub proof fn lemma_id_views_push(s: Seq<ElementId>, x: ElementId)
    ensures
        id_views(s.push(x)) == id_views(s).push(x@),
{
    assert(id_views(s.push(x)) =~= id_views(s).push(x@));
}

/// The views of a prefix one longer.
pub proof fn lemma_map_prefix_push<T, U>(s: Seq<T>, i: int, f: spec_fn(T) -> U)
    requires
        0 <= i < s.len(),
    ensures
        s.subrange(0, i + 1).map_values(f) == s.subrange(0, i).map_values(f).push(f(s[i])),
{
    assert(s.subrange(0, i + 1).map_values(f) =~= s.subrange(0, i).map_values(f).push(f(s[i])));
}

} // verus!
