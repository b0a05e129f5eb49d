//! Conversions into attribute values, views and children.

use crate::node::{AttributeValue, AttributeValueView, NodeView};
use crate::view::{Child, HandlerFunction, View};
use vstd::prelude::*;
use vstd::std_specs::convert::FromSpecImpl;
use vstd::view::View as _;

verus! {

impl From<String> for AttributeValue {
    fn from(s: String) -> (res: AttributeValue) {
        AttributeValue::String(s)
    }
}

impl FromSpecImpl<String> for AttributeValue {
    open spec fn obeys_from_spec() -> bool {
        true
    }

    open spec fn from_spec(s: String) -> AttributeValue {
        AttributeValue::String(s)
    }
}

impl<'a> From<&'a str> for AttributeValue {
    fn from(s: &'a str) -> (res: AttributeValue)
        ensures
            res@ == AttributeValueView::String(s@),
    {
        AttributeValue::String(s.to_owned())
    }
}

impl<'a> FromSpecImpl<&'a str> for AttributeValue {
    open spec fn obeys_from_spec() -> bool {
        false
    }

    open spec fn from_spec(s: &'a str) -> AttributeValue {
        arbitrary()
    }
}

impl From<bool> for AttributeValue {
    fn from(b: bool) -> (res: AttributeValue) {
        AttributeValue::Bool(b)
    }
}

impl FromSpecImpl<bool> for AttributeValue {
    open spec fn obeys_from_spec() -> bool {
        true
    }

    open spec fn from_spec(b: bool) -> AttributeValue {
        AttributeValue::Bool(b)
    }
}

impl<A> From<()> for View<A> {
    fn from(unit: ()) -> (res: View<A>)
        ensures
            res.tree() == NodeView::Null,
            res.callbacks() == Map::<Seq<char>, HandlerFunction<A>>::empty(),
    {
        View::null()
    }
}

impl<A> FromSpecImpl<()> for View<A> {
    open spec fn obeys_from_spec() -> bool {
        false
    }

    open spec fn from_spec(unit: ()) -> View<A> {
        arbitrary()
    }
}

impl<A> From<String> for View<A> {
    fn from(s: String) -> (res: View<A>)
        ensures
            res.tree() == NodeView::Text(s@),
            res.callbacks() == Map::<Seq<char>, HandlerFunction<A>>::empty(),
    {
        View::text(s)
    }
}

impl<A> FromSpecImpl<String> for View<A> {
    open spec fn obeys_from_spec() -> bool {
        false
    }

    open spec fn from_spec(s: String) -> View<A> {
        arbitrary()
    }
}

impl<'a, A> From<&'a str> for View<A> {
    fn from(s: &'a str) -> (res: View<A>)
        ensures
            res.tree() == NodeView::Text(s@),
            res.callbacks() == Map::<Seq<char>, HandlerFunction<A>>::empty(),
    {
        View::text(s.to_owned())
    }
}

impl<'a, A> FromSpecImpl<&'a str> for View<A> {
    open spec fn obeys_from_spec() -> bool {
        false
    }

    open spec fn from_spec(s: &'a str) -> View<A> {
        arbitrary()
    }
}

impl<A, T> From<Option<T>> for View<A> where T: Into<View<A>> {
    fn from(option: Option<T>) -> (res: View<A>)
        ensures
            match option {
                Some(v) => call_ensures(T::into, (v,), res),
                None => res.tree() == NodeView::Null && res.callbacks() == Map::<
                    Seq<char>,
                    HandlerFunction<A>,
                >::empty(),
            },
    {
        match option {
            Some(v) => v.into(),
            None => View::null(),
        }
    }
}

impl<A, T> FromSpecImpl<Option<T>> for View<A> where T: Into<View<A>> {
    open spec fn obeys_from_spec() -> bool {
        false
    }

    open spec fn from_spec(option: Option<T>) -> View<A> {
        arbitrary()
    }
}

impl<A, T> From<T> for Child<A> where T: Into<View<A>> {
    fn from(v: T) -> (res: Child<A>)
        ensures
            match res {
                Child::View(view) => call_ensures(T::into, (v,), view),
                Child::ViewList(_) => false,
            },
    {
        Child::View(v.into())
    }
}

impl<A, T> FromSpecImpl<T> for Child<A> where T: Into<View<A>> {
    open spec fn obeys_from_spec() -> bool {
        false
    }

    open spec fn from_spec(v: T) -> Child<A> {
        arbitrary()
    }
}

impl<A> FromIterator<View<A>> for Child<A> {
    /// A list of the views that the iterator gives.
    ///
    /// Calls `Vec::from_iter` of std, of which the verifier knows nothing;
    /// only the kind of the child is stated.
    #[verifier::external_body]
    fn from_iter<I>(iter: I) -> (res: Child<A>) where I: IntoIterator<Item = View<A>>
        ensures
            res is ViewList,
    {
        Child::ViewList(Vec::from_iter(iter))
    }
}

} // verus!
