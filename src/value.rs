use vstd::prelude::*;

verus! {

/// The mathematical model of a parsed record value.
pub enum Val {
    Null,
    Bool(bool),
    /// A number, kept as the text it was written with.
    Num(Seq<char>),
    Str(Seq<char>),
    Arr(Seq<Val>),
    /// Fields in the order they were read.
    Obj(Seq<(Seq<char>, Val)>),
}

/// A parsed record value: scalars, arrays and objects with text keys.
#[derive(Debug)]
pub enum LogValue {
    Null,
    Bool(bool),
    /// A number, kept as the text it was written with, so that it is never rounded.
    Number(String),
    String(String),
    Array(Vec<LogValue>),
    Object(Vec<(String, LogValue)>),
}

pub open spec fn view_items(items: Seq<LogValue>) -> Seq<Val>
    decreases items,
{
    if items.len() == 0 {
        Seq::empty()
    } else {
        view_items(items.drop_last()).push(items.last().view())
    }
}

pub open spec fn view_fields(fields: Seq<(String, LogValue)>) -> Seq<(Seq<char>, Val)>
    decreases fields,
{
    if fields.len() == 0 {
        Seq::empty()
    } else {
        view_fields(fields.drop_last()).push((fields.last().0@, fields.last().1.view()))
    }
}

impl View for LogValue {
    type V = Val;

    open spec fn view(&self) -> Val
        decreases self,
    {
        match self {
            LogValue::Null => Val::Null,
            LogValue::Bool(b) => Val::Bool(*b),
            LogValue::Number(t) => Val::Num(t@),
            LogValue::String(s) => Val::Str(s@),
            LogValue::Array(items) => Val::Arr(view_items(items@)),
            LogValue::Object(fields) => Val::Obj(view_fields(fields@)),
        }
    }
}

pub proof fn lemma_view_items(items: Seq<LogValue>)
    ensures
        view_items(items).len() == items.len(),
        forall|i: int| 0 <= i < items.len() ==> #[trigger] view_items(items)[i] == items[i]@,
    decreases items.len(),
{
    if items.len() > 0 {
        lemma_view_items(items.drop_last());
        assert(view_items(items) == view_items(items.drop_last()).push(items.last().view()));
    } else {
        assert(view_items(items) == Seq::<Val>::empty());
    }
}

pub proof fn lemma_view_fields(fields: Seq<(String, LogValue)>)
    ensures
        view_fields(fields).len() == fields.len(),
        forall|i: int|
            0 <= i < fields.len() ==> #[trigger] view_fields(fields)[i] == (
                fields[i].0@,
                fields[i].1@,
            ),
    decreases fields.len(),
{
    if fields.len() > 0 {
        lemma_view_fields(fields.drop_last());
        assert(view_fields(fields) == view_fields(fields.drop_last()).push(
            (fields.last().0@, fields.last().1.view()),
        ));
    } else {
        assert(view_fields(fields) == Seq::<(Seq<char>, Val)>::empty());
    }
}

} // verus!
