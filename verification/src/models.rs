//! The ledger's data: transaction kinds, category tags and transactions.

use crate::order::{text_less, text_lt};
use crate::text::chars_of;
use vstd::prelude::*;

verus! {

/// Whether two pieces of text hold the same characters.
pub fn same_text(a: &str, b: &str) -> (r: bool)
    ensures
        r == (a@ == b@),
{
    a.to_owned() == b.to_owned()
}

/// Whether a transaction increases (credit) or decreases (debit) the balance.
#[derive(Debug, Clone, Copy, PartialEq, Eq, Structural)]
pub enum TransactionType {
    Credit,
    Debit,
}

impl TransactionType {
    /// The name under which the kind is stored.
    pub open spec fn name(self) -> Seq<char> {
        match self {
            TransactionType::Credit => "credit"@,
            TransactionType::Debit => "debit"@,
        }
    }

    /// The kind that a stored name stands for: anything but `credit` is a debit.
    pub open spec fn of_name(name: Seq<char>) -> TransactionType {
        if name == "credit"@ {
            TransactionType::Credit
        } else {
            TransactionType::Debit
        }
    }

    /// The name under which the kind is stored.
    pub fn as_str(&self) -> (s: &'static str)
        ensures
            s@ == self.name(),
            TransactionType::of_name(s@) == *self,
    {
        proof {
            reveal_strlit("credit");
            reveal_strlit("debit");
            assert("credit"@.len() != "debit"@.len());
        }
        match self {
            TransactionType::Credit => "credit",
            TransactionType::Debit => "debit",
        }
    }

    /// The kind that a stored name stands for: a credit for `credit`, and a
    /// debit for any other name.
    pub fn from_str(s: &str) -> (kind: TransactionType)
        ensures
            kind == TransactionType::of_name(s@),
    {
        if same_text(s, "credit") {
            TransactionType::Credit
        } else {
            TransactionType::Debit
        }
    }
}

/// The name of the tag that stands in where a catalog has none.
pub open spec fn fallback_name() -> Seq<char> {
    "other"@
}

/// The names of the six tags of the default catalog, in its order.
pub open spec fn default_names() -> Seq<Seq<char>> {
    seq!["food"@, "travel"@, "shopping"@, "bills"@, "salary"@, "other"@]
}

/// A category label. A tag is its name: two tags with the same name are the
/// same tag.
#[derive(Debug, PartialEq, Eq, Hash)]
pub struct Tag {
    pub name: String,
}

/// The names of a list of tags.
pub open spec fn tag_names(tags: Seq<Tag>) -> Seq<Seq<char>> {
    Seq::new(tags.len(), |i: int| tags[i].name())
}

impl Clone for Tag {
    fn clone(&self) -> (copy: Self)
        ensures
            copy == *self,
            copy.name() == self.name(),
    {
        Tag { name: self.name.clone() }
    }
}

impl Tag {
    /// The tag's name.
    pub open spec fn name(self) -> Seq<char> {
        self.name@
    }

    /// The tag's name.
    pub fn as_str(&self) -> (s: &str)
        ensures
            s@ == self.name(),
    {
        self.name.as_str()
    }

    /// The tag with the given name.
    pub fn from_str(s: &str) -> (tag: Tag)
        ensures
            tag.name() == s@,
    {
        Tag { name: s.to_owned() }
    }

    /// The tag that stands in where a catalog has none: `other`.
    pub fn other() -> (tag: Tag)
        ensures
            tag.name() == fallback_name(),
    {
        Tag::from_str("other")
    }

    /// Whether the two tags are the same: whether they have the same name.
    pub fn same_as(&self, other: &Tag) -> (same: bool)
        ensures
            same == (self.name() == other.name()),
    {
        self.name == other.name
    }

    /// Whether this tag's name comes before the other's.
    pub fn name_before(&self, other: &Tag) -> (before: bool)
        ensures
            before == text_lt(self.name(), other.name()),
    {
        text_less(&chars_of(self.as_str()), &chars_of(other.as_str()))
    }

    /// The six tags of the default catalog, in its order.
    pub fn all() -> (tags: Vec<Tag>)
        ensures
            tag_names(tags@) == default_names(),
    {
        let tags = vec![
            Tag::from_str("food"),
            Tag::from_str("travel"),
            Tag::from_str("shopping"),
            Tag::from_str("bills"),
            Tag::from_str("salary"),
            Tag::from_str("other"),
        ];
        assert(tag_names(tags@) =~= default_names());
        tags
    }
}

/// One recorded movement of money.
#[derive(Debug, PartialEq, Eq)]
pub struct Transaction {
    /// Assigned by the store; unique and stable.
    pub id: i32,
    pub source: String,
    /// The magnitude, in hundredths of the currency unit.
    pub amount: u64,
    pub kind: TransactionType,
    pub tag: Tag,
    /// A calendar date that sorts as text, `YYYY-MM-DD`.
    pub date: String,
}

impl Clone for Transaction {
    fn clone(&self) -> (copy: Self)
        ensures
            copy == *self,
    {
        Transaction {
            id: self.id,
            source: self.source.clone(),
            amount: self.amount,
            kind: self.kind,
            tag: self.tag.clone(),
            date: self.date.clone(),
        }
    }
}

} // verus!
