use vstd::prelude::*;
use crate::message::BaseType;

verus! {

/// The datatype that the first entry for `tag` gives it.
pub open spec fn entry_type(entries: Seq<(u32, BaseType)>, tag: u32) -> Option<BaseType>
    decreases entries.len(),
{
    if entries.len() == 0 {
        None
    } else if entries[0].0 == tag {
        Some(entries[0].1)
    } else {
        entry_type(entries.drop_first(), tag)
    }
}

/// The datatype a tag is read as: the dictionary's, or text for a tag it
/// does not know.
pub open spec fn type_of_tag(entries: Seq<(u32, BaseType)>, tag: u32) -> BaseType {
    match entry_type(entries, tag) {
        Some(t) => t,
        None => BaseType::String,
    }
}

/// A field dictionary: the datatype of each tag it knows.
#[derive(Clone, Debug)]
pub struct Dictionary {
    entries: Vec<(u32, BaseType)>,
}

impl View for Dictionary {
    type V = Seq<(u32, BaseType)>;

    closed spec fn view(&self) -> Seq<(u32, BaseType)> {
        self.entries@
    }
}

impl Dictionary {
    /// A dictionary that knows no tag.
    pub fn empty() -> (r: Self)
        ensures
            forall|t: u32| entry_type(r@, t) is None,
    {
        let r = Dictionary { entries: Vec::new() };
        assert forall|t: u32| entry_type(r@, t) is None by {}
        r
    }

    /// Gives `tag` the datatype `ty`, in place of what it had.
    pub fn add_field(&mut self, tag: u32, ty: BaseType)
        ensures
            entry_type(final(self)@, tag) == Some(ty),
            forall|t: u32| t != tag ==> entry_type(final(self)@, t) == entry_type(old(self)@, t),
    {
        self.entries.insert(0, (tag, ty));
        assert(final(self)@.drop_first() =~= old(self)@);
    }

    /// The datatype the dictionary gives `tag`, if it knows the tag.
    pub fn get_field(&self, tag: u32) -> (r: Option<BaseType>)
        ensures
            r == entry_type(self@, tag),
    {
        let mut i: usize = 0;
        assert(self@.subrange(0, self@.len() as int) =~= self@);
        while i < self.entries.len()
            invariant
                i <= self@.len(),
                entry_type(self@, tag) == entry_type(self@.subrange(i as int, self@.len() as int), tag),
            decreases self@.len() - i,
        {
            let ghost rest = self@.subrange(i as int, self@.len() as int);
            assert(rest.drop_first() =~= self@.subrange(i + 1, self@.len() as int));
            if self.entries[i].0 == tag {
                return Some(self.entries[i].1);
            }
            i += 1;
        }
        None
    }
}

/// Resolves tags to datatypes through a dictionary.
pub struct StandardTagLookup<'d> {
    dictionary: &'d Dictionary,
}

impl<'d> StandardTagLookup<'d> {
    pub closed spec fn entries(&self) -> Seq<(u32, BaseType)> {
        self.dictionary@
    }

    pub fn new(dict: &'d Dictionary) -> (r: Self)
        ensures
            r.entries() == dict@,
    {
        StandardTagLookup { dictionary: dict }
    }

    /// The datatype of `tag`: text where the dictionary does not know it.
    pub fn lookup(&self, tag: u32) -> (r: BaseType)
        ensures
            r == type_of_tag(self.entries(), tag),
    {
        match self.dictionary.get_field(tag) {
            Some(t) => t,
            None => BaseType::String,
        }
    }
}

} // verus!
