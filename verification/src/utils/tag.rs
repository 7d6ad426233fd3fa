use vstd::prelude::*;
use vstd::std_specs::cmp::{PartialEqSpec, PartialEqSpecImpl, PartialOrdSpec, PartialOrdSpecImpl};
use core::cmp::Ordering;

verus! {

/// A value that has a tag by which it is told apart from others.
pub trait Tag: Sized {
    type Tag;

    fn tag(&self) -> Self::Tag;
    /// Wraps the value and keeps the tag that it has now.
    fn tagged(self) -> (tagged: Tagged<Self>)
        ensures
            tagged.wrapped == self,
            call_ensures(Self::tag, (&self,), tagged.tag),
    {
        let tag = self.tag();
        Tagged { tag, wrapped: self }
    }
}

/// A value together with the tag that it had when it was wrapped.
pub struct Tagged<T: Tag> {
    pub tag: T::Tag,
    pub wrapped: T,
}

impl<T: Tag> Tagged<T> {
    /// The tag that was taken when the value was wrapped.
    pub open spec fn tag_kept(&self) -> T::Tag {
        self.tag
    }

    /// The value that is wrapped.
    pub open spec fn wrapped(&self) -> T {
        self.wrapped
    }

    /// Wraps `data` and keeps the tag that it has now.
    pub fn new(data: T) -> (tagged: Self)
        ensures
            tagged.wrapped() == data,
            call_ensures(T::tag, (&data,), tagged.tag_kept()),
    {
        Self { tag: data.tag(), wrapped: data }
    }

    /// The tag that was taken when the value was wrapped.
    pub fn tag(&self) -> (tag: &T::Tag)
        ensures
            *tag == self.tag_kept(),
    {
        &self.tag
    }

    /// The value that is wrapped.
    pub fn get(&self) -> (data: &T)
        ensures
            *data == self.wrapped(),
    {
        &self.wrapped
    }

    /// Exclusive access to the value; the tag stays what it was, whatever is
    /// written.
    pub fn get_mut(&mut self) -> (data: &mut T)
        ensures
            *data == old(self).wrapped(),
            final(self).wrapped() == *final(data),
            final(self).tag_kept() == old(self).tag_kept(),
    {
        &mut self.wrapped
    }
}

/// Two tagged values are equal where their tags are, whatever they wrap.
impl<T: Tag> PartialEq for Tagged<T> where T::Tag: PartialEq {
    fn eq(&self, other: &Self) -> (equal: bool) {
        self.tag == other.tag
    }
}

impl<T: Tag> PartialEqSpecImpl for Tagged<T> where T::Tag: PartialEq {
    open spec fn obeys_eq_spec() -> bool {
        <T::Tag>::obeys_eq_spec()
    }

    closed spec fn eq_spec(&self, other: &Self) -> bool {
        self.tag.eq_spec(&other.tag)
    }
}

impl<T: Tag> Eq for Tagged<T> where T::Tag: Eq {

}

/// Tagged values are ordered as their tags are.
impl<T: Tag> PartialOrd for Tagged<T> where T::Tag: PartialOrd {
    fn partial_cmp(&self, other: &Self) -> (order: Option<Ordering>) {
        self.tag.partial_cmp(&other.tag)
    }
}

impl<T: Tag> PartialOrdSpecImpl for Tagged<T> where T::Tag: PartialOrd {
    open spec fn obeys_partial_cmp_spec() -> bool {
        <T::Tag>::obeys_partial_cmp_spec()
    }

    closed spec fn partial_cmp_spec(&self, other: &Self) -> Option<Ordering> {
        self.tag.partial_cmp_spec(&other.tag)
    }
}

/// Equality and order of tagged values are those of the tags that they keep.
pub proof fn lemma_compared_by_tag<T: Tag>(a: Tagged<T>, b: Tagged<T>) where T::Tag: PartialOrd
    ensures
        PartialEqSpec::eq_spec(&a, &b) == a.tag_kept().eq_spec(&b.tag_kept()),
        PartialOrdSpec::partial_cmp_spec(&a, &b) == a.tag_kept().partial_cmp_spec(
            &b.tag_kept(),
        ),
{
}

} // verus!
