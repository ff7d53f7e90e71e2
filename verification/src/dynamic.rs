//! The dynamic value model: a tree of untyped host values.

use vstd::prelude::*;

verus! {

/// A dynamic value.
///
/// A number holds the IEEE 754 binary64 bit pattern of the host's number.
/// An object is the list of its entries in enumeration order; each entry's
/// key is itself a dynamic value, so that a key that is no string can be
/// written down. `Other` stands for any value of a kind that has no place
/// in the tagged model and holds the host's textual form of it.
#[derive(Debug, PartialEq)]
pub enum Dynamic {
    Undefined,
    Null,
    Bool(bool),
    Number(u64),
    Str(String),
    Array(Vec<Dynamic>),
    Object(Vec<(Dynamic, Dynamic)>),
    Other(String),
}

/// The mathematical content of a [`Dynamic`].
pub enum DynamicView {
    Undefined,
    Null,
    Bool(bool),
    Number(u64),
    Str(Seq<char>),
    Array(Seq<DynamicView>),
    Object(Seq<(DynamicView, DynamicView)>),
    Other(Seq<char>),
}

/// The content of a dynamic value, defined by recursion over the tree.
pub open spec fn dynamic_view(d: Dynamic) -> DynamicView
    decreases d,
{
    match d {
        Dynamic::Undefined => DynamicView::Undefined,
        Dynamic::Null => DynamicView::Null,
        Dynamic::Bool(b) => DynamicView::Bool(b),
        Dynamic::Number(bits) => DynamicView::Number(bits),
        Dynamic::Str(s) => DynamicView::Str(s@),
        Dynamic::Array(items) => DynamicView::Array(
            Seq::new(
                items@.len(),
                |i: int|
                    if 0 <= i < items@.len() {
                        dynamic_view(items@[i])
                    } else {
                        DynamicView::Undefined
                    },
            ),
        ),
        Dynamic::Object(entries) => DynamicView::Object(
            Seq::new(
                entries@.len(),
                |i: int|
                    if 0 <= i < entries@.len() {
                        (dynamic_view(entries@[i].0), dynamic_view(entries@[i].1))
                    } else {
                        (DynamicView::Undefined, DynamicView::Undefined)
                    },
            ),
        ),
        Dynamic::Other(text) => DynamicView::Other(text@),
    }
}

/// What the host answers when asked what a value is. A host may answer
/// yes to more than one question: an array is an object too.
#[derive(Debug, Clone, Copy, PartialEq, Eq)]
pub struct Probe {
    pub is_null: bool,
    pub is_undefined: bool,
    pub is_boolean: bool,
    pub is_number: bool,
    pub is_string: bool,
    pub is_array: bool,
    pub is_object: bool,
}

/// The kind under which a host value enters the dynamic model.
#[derive(Debug, Clone, Copy, PartialEq, Eq)]
pub enum Kind {
    Null,
    Undefined,
    Bool,
    Number,
    Str,
    Array,
    Object,
    Other,
}

/// The kind of a host value: the first, in the order null, undefined,
/// boolean, number, string, array, object, to which the host says yes.
pub open spec fn kind_of(probe: Probe) -> Kind {
    if probe.is_null {
        Kind::Null
    } else if probe.is_undefined {
        Kind::Undefined
    } else if probe.is_boolean {
        Kind::Bool
    } else if probe.is_number {
        Kind::Number
    } else if probe.is_string {
        Kind::Str
    } else if probe.is_array {
        Kind::Array
    } else if probe.is_object {
        Kind::Object
    } else {
        Kind::Other
    }
}

/// Decides the kind of a host value from the host's answers. An array is
/// taken as an array, though it is an object too; a value that is none of
/// the seven is of no kind that the tagged model knows.
pub fn classify(probe: &Probe) -> (kind: Kind)
    ensures
        kind == kind_of(*probe),
        kind == Kind::Array <==> probe.is_array && !(probe.is_null || probe.is_undefined
            || probe.is_boolean || probe.is_number || probe.is_string),
        kind == Kind::Other <==> !(probe.is_null || probe.is_undefined || probe.is_boolean
            || probe.is_number || probe.is_string || probe.is_array || probe.is_object),
{
    if probe.is_null {
        Kind::Null
    } else if probe.is_undefined {
        Kind::Undefined
    } else if probe.is_boolean {
        Kind::Bool
    } else if probe.is_number {
        Kind::Number
    } else if probe.is_string {
        Kind::Str
    } else if probe.is_array {
        Kind::Array
    } else if probe.is_object {
        Kind::Object
    } else {
        Kind::Other
    }
}

/// The views of a list of dynamic values, item by item.
pub open spec fn item_views(items: Seq<Dynamic>) -> Seq<DynamicView> {
    Seq::new(items.len(), |i: int| items[i]@)
}

/// The views of a list of entries, entry by entry.
pub open spec fn entry_views(entries: Seq<(Dynamic, Dynamic)>) -> Seq<(DynamicView, DynamicView)> {
    Seq::new(entries.len(), |i: int| (entries[i].0@, entries[i].1@))
}

/// The view of an array is the list of its items' views.
pub proof fn lemma_array_view(items: Vec<Dynamic>)
    ensures
        Dynamic::Array(items)@ == DynamicView::Array(item_views(items@)),
{
    assert(Dynamic::Array(items)@->Array_0 =~= item_views(items@));
}

/// The view of an object is the list of its entries' views.
pub proof fn lemma_object_view(entries: Vec<(Dynamic, Dynamic)>)
    ensures
        Dynamic::Object(entries)@ == DynamicView::Object(entry_views(entries@)),
{
    assert(Dynamic::Object(entries)@->Object_0 =~= entry_views(entries@));
}

impl View for Dynamic {
    type V = DynamicView;

    open spec fn view(&self) -> DynamicView {
        dynamic_view(*self)
    }
}

} // verus!
