//! The tag catalog: the ordered list of category tags that a form chooses from.

use crate::config::names_of;
use crate::models::{fallback_name, tag_names, Tag};
use vstd::prelude::*;

verus! {

/// The name of the tag at `index`, or of the fallback tag where the catalog
/// has no such index.
pub open spec fn resolved(names: Seq<Seq<char>>, index: int) -> Seq<char> {
    if 0 <= index < names.len() {
        names[index]
    } else {
        fallback_name()
    }
}

/// Whether `index` is the first place at which `name` stands in `names`.
pub open spec fn is_first_index_of(names: Seq<Seq<char>>, name: Seq<char>, index: int) -> bool {
    &&& 0 <= index < names.len()
    &&& names[index] == name
    &&& forall|j: int| 0 <= j < index ==> names[j] != name
}

/// The first place at which `name` stands in `names`, or zero where it stands
/// nowhere: the index that a form takes for a transaction's tag.
pub open spec fn index_or_first(names: Seq<Seq<char>>, name: Seq<char>) -> int {
    if names.contains(name) {
        names.index_of_first(name).unwrap()
    } else {
        0
    }
}

/// The index after `index`, going round a catalog of `length` tags; `index`
/// itself where the catalog is empty.
pub open spec fn next_index(index: int, length: int) -> int {
    if length <= 0 {
        index
    } else {
        (index + 1) % length
    }
}

/// The index before `index`, going round a catalog of `length` tags; `index`
/// itself where the catalog is empty.
pub open spec fn prev_index(index: int, length: int) -> int {
    if length <= 0 {
        index
    } else {
        (index - 1) % length
    }
}

/// Going on and then back, or back and then on, returns to an index of the
/// catalog.
pub proof fn lemma_next_prev_cancel(index: int, length: int)
    requires
        0 <= index < length,
    ensures
        0 <= next_index(index, length) < length,
        0 <= prev_index(index, length) < length,
        prev_index(next_index(index, length), length) == index,
        next_index(prev_index(index, length), length) == index,
        index + 1 < length ==> next_index(index, length) == index + 1,
        index + 1 == length ==> next_index(index, length) == 0,
        index > 0 ==> prev_index(index, length) == index - 1,
        index == 0 ==> prev_index(index, length) == length - 1,
{
    if index + 1 < length {
        assert((index + 1) % length == index + 1) by (nonlinear_arith)
            requires
                0 <= index + 1 < length,
        ;
    } else {
        assert((index + 1) % length == 0) by (nonlinear_arith)
            requires
                index + 1 == length,
                length > 0,
        ;
    }
    if index > 0 {
        assert((index - 1) % length == index - 1) by (nonlinear_arith)
            requires
                0 <= index - 1 < length,
        ;
    } else {
        assert((index - 1) % length == length - 1) by (nonlinear_arith)
            requires
                index == 0,
                length > 0,
        ;
    }
    let n = next_index(index, length);
    let p = prev_index(index, length);
    if n == 0 {
        assert((n - 1) % length == length - 1) by (nonlinear_arith)
            requires
                n == 0,
                length > 0,
        ;
    } else {
        assert((n - 1) % length == n - 1) by (nonlinear_arith)
            requires
                0 <= n - 1 < length,
        ;
    }
    if p + 1 < length {
        assert((p + 1) % length == p + 1) by (nonlinear_arith)
            requires
                0 <= p + 1 < length,
        ;
    } else {
        assert((p + 1) % length == 0) by (nonlinear_arith)
            requires
                p + 1 == length,
                length > 0,
        ;
    }
}

/// An ordered list of tags, addressed by index. What it holds is the tags'
/// names.
#[derive(Debug)]
pub struct TagCatalog {
    pub tags: Vec<Tag>,
}

impl View for TagCatalog {
    type V = Seq<Seq<char>>;

    open spec fn view(&self) -> Seq<Seq<char>> {
        tag_names(self.tags@)
    }
}

impl TagCatalog {
    /// The catalog of the given tags, in their order.
    pub fn new(tags: Vec<Tag>) -> (catalog: TagCatalog)
        ensures
            catalog@ == tag_names(tags@),
    {
        TagCatalog { tags }
    }

    /// The catalog of the tags with the given names, in their order.
    pub fn from_names(names: &Vec<String>) -> (catalog: TagCatalog)
        ensures
            catalog@ == names_of(names@),
    {
        let mut tags: Vec<Tag> = Vec::new();
        let mut i: usize = 0;
        while i < names.len()
            invariant
                i <= names@.len(),
                tags@.len() == i,
                forall|j: int| 0 <= j < i ==> (#[trigger] tags@[j]).name() == names@[j]@,
            decreases names@.len() - i,
        {
            tags.push(Tag::from_str(names[i].as_str()));
            i += 1;
        }
        assert(tag_names(tags@) =~= names_of(names@));
        TagCatalog { tags }
    }

    /// The tags, in the catalog's order.
    pub fn tags(&self) -> (tags: &Vec<Tag>)
        ensures
            tag_names(tags@) == self@,
    {
        &self.tags
    }

    /// How many tags the catalog holds.
    pub fn len(&self) -> (n: usize)
        ensures
            n == self@.len(),
    {
        self.tags.len()
    }

    /// The tag at `index`; the tag `other` where there is none.
    pub fn resolve(&self, index: usize) -> (tag: Tag)
        ensures
            tag.name() == resolved(self@, index as int),
    {
        if index < self.tags.len() {
            self.tags[index].clone()
        } else {
            Tag::other()
        }
    }

    /// The first index at which `tag` stands, if it stands in the catalog.
    pub fn index_of(&self, tag: &Tag) -> (found: Option<usize>)
        ensures
            match found {
                Some(i) => is_first_index_of(self@, tag.name(), i as int),
                None => !self@.contains(tag.name()),
            },
            found.is_some() == self@.contains(tag.name()),
            found.unwrap_or(0) == index_or_first(self@, tag.name()),
    {
        let mut i: usize = 0;
        while i < self.tags.len()
            invariant
                i <= self@.len(),
                self@.len() == self.tags@.len(),
                forall|j: int| 0 <= j < i ==> self@[j] != tag.name(),
            decreases self@.len() - i,
        {
            if self.tags[i].same_as(tag) {
                proof {
                    lemma_first_index(self@, tag.name(), i as int);
                }
                return Some(i);
            }
            i += 1;
        }
        None
    }

    /// The index after `index` in a catalog of `length` tags, going round.
    pub fn next(index: usize, length: usize) -> (following: usize)
        ensures
            following == next_index(index as int, length as int),
            length > 0 ==> following < length,
    {
        if length == 0 {
            return index;
        }
        let here = index % length;
        proof {
            assert((index + 1) % (length as int) == (here + 1) % (length as int))
                by (nonlinear_arith)
                requires
                    here == index % length,
                    length > 0,
            ;
        }
        if here + 1 == length {
            assert((here + 1) % (length as int) == 0) by (nonlinear_arith)
                requires
                    here + 1 == length,
                    length > 0,
            ;
            0
        } else {
            assert((here + 1) % (length as int) == here + 1) by (nonlinear_arith)
                requires
                    0 <= here + 1 < length,
            ;
            here + 1
        }
    }

    /// The index before `index` in a catalog of `length` tags, going round.
    pub fn prev(index: usize, length: usize) -> (preceding: usize)
        ensures
            preceding == prev_index(index as int, length as int),
            length > 0 ==> preceding < length,
    {
        if length == 0 {
            return index;
        }
        let here = index % length;
        proof {
            assert((index - 1) % (length as int) == (here - 1) % (length as int))
                by (nonlinear_arith)
                requires
                    here == index % length,
                    length > 0,
            ;
        }
        if here == 0 {
            assert((here - 1) % (length as int) == length - 1) by (nonlinear_arith)
                requires
                    here == 0,
                    length > 0,
            ;
            length - 1
        } else {
            assert((here - 1) % (length as int) == here - 1) by (nonlinear_arith)
                requires
                    0 <= here - 1 < length,
            ;
            here - 1
        }
    }
}

/// The first index of a name that stands in the list is the one before
/// which it does not stand.
pub proof fn lemma_first_index(names: Seq<Seq<char>>, name: Seq<char>, index: int)
    requires
        is_first_index_of(names, name, index),
    ensures
        names.contains(name),
        names.index_of_first(name) == Some(index),
        index_or_first(names, name) == index,
{
    assert(names.contains(name));
    names.index_of_first_ensures(name);
}

} // verus!
