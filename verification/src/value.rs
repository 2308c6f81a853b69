//! The self-describing value.

use vstd::prelude::*;
use crate::tag::Tag;

verus! {

/// Any payload of the format, as a tree that owns its parts.
///
/// There is one variant for each tag but `End`, so a value keeps what the
/// wire distinguishes: the width of a number, and an array from a list of
/// numbers.
#[derive(Debug, PartialEq, Eq)]
pub enum Value {
    /// An 8-bit signed integer.
    Byte(i8),
    /// A 16-bit signed integer.
    Short(i16),
    /// A 32-bit signed integer.
    Int(i32),
    /// A 64-bit signed integer.
    Long(i64),
    /// A 32-bit IEEE 754 number, held as its bit pattern.
    Float(u32),
    /// A 64-bit IEEE 754 number, held as its bit pattern.
    Double(u64),
    /// An array of 8-bit signed integers.
    ByteArray(Vec<i8>),
    /// A text.
    String(String),
    /// A list of payloads, which on the wire share one tag.
    List(Vec<Value>),
    /// Named payloads in the order of the wire. A name may occur twice.
    Compound(Vec<(String, Value)>),
    /// An array of 32-bit signed integers.
    IntArray(Vec<i32>),
    /// An array of 64-bit signed integers.
    LongArray(Vec<i64>),
}

/// The mathematical model of a [`Value`].
pub enum ValueView {
    Byte(i8),
    Short(i16),
    Int(i32),
    Long(i64),
    Float(u32),
    Double(u64),
    ByteArray(Seq<i8>),
    String(Seq<char>),
    List(Seq<ValueView>),
    Compound(Seq<(Seq<char>, ValueView)>),
    IntArray(Seq<i32>),
    LongArray(Seq<i64>),
}

impl ValueView {
    /// The tag under which this value is written.
    pub open spec fn tag(self) -> Tag {
        match self {
            ValueView::Byte(_) => Tag::Byte,
            ValueView::Short(_) => Tag::Short,
            ValueView::Int(_) => Tag::Int,
            ValueView::Long(_) => Tag::Long,
            ValueView::Float(_) => Tag::Float,
            ValueView::Double(_) => Tag::Double,
            ValueView::ByteArray(_) => Tag::ByteArray,
            ValueView::String(_) => Tag::String,
            ValueView::List(_) => Tag::List,
            ValueView::Compound(_) => Tag::Compound,
            ValueView::IntArray(_) => Tag::IntArray,
            ValueView::LongArray(_) => Tag::LongArray,
        }
    }
}

/// The position of the last entry named `name`, if there is one.
pub open spec fn last_named(entries: Seq<(Seq<char>, ValueView)>, name: Seq<char>) -> Option<int>
    decreases entries.len(),
{
    if entries.len() == 0 {
        None
    } else if entries.last().0 == name {
        Some(entries.len() - 1)
    } else {
        last_named(entries.drop_last(), name)
    }
}

/// The models of the entries of a compound.
pub open spec fn entries_view(entries: Seq<(String, Value)>) -> Seq<(Seq<char>, ValueView)>
    decreases entries,
{
    Seq::new(
        entries.len(),
        |i: int|
            if 0 <= i < entries.len() {
                (entries[i].0@, entries[i].1@)
            } else {
                arbitrary()
            },
    )
}

/// The models of the items of a list.
pub open spec fn items_view(items: Seq<Value>) -> Seq<ValueView>
    decreases items,
{
    Seq::new(
        items.len(),
        |i: int|
            if 0 <= i < items.len() {
                items[i]@
            } else {
                arbitrary()
            },
    )
}

impl View for Value {
    type V = ValueView;

    open spec fn view(&self) -> ValueView
        decreases self,
    {
        match self {
            Value::Byte(v) => ValueView::Byte(*v),
            Value::Short(v) => ValueView::Short(*v),
            Value::Int(v) => ValueView::Int(*v),
            Value::Long(v) => ValueView::Long(*v),
            Value::Float(v) => ValueView::Float(*v),
            Value::Double(v) => ValueView::Double(*v),
            Value::ByteArray(v) => ValueView::ByteArray(v@),
            Value::String(v) => ValueView::String(v@),
            Value::List(items) => ValueView::List(items_view(items@)),
            Value::Compound(entries) => ValueView::Compound(entries_view(entries@)),
            Value::IntArray(v) => ValueView::IntArray(v@),
            Value::LongArray(v) => ValueView::LongArray(v@),
        }
    }
}

impl Value {
    /// The tag under which this value is written.
    pub fn tag(&self) -> (tag: Tag)
        ensures
            tag == self@.tag(),
    {
        match self {
            Value::Byte(_) => Tag::Byte,
            Value::Short(_) => Tag::Short,
            Value::Int(_) => Tag::Int,
            Value::Long(_) => Tag::Long,
            Value::Float(_) => Tag::Float,
            Value::Double(_) => Tag::Double,
            Value::ByteArray(_) => Tag::ByteArray,
            Value::String(_) => Tag::String,
            Value::List(_) => Tag::List,
            Value::Compound(_) => Tag::Compound,
            Value::IntArray(_) => Tag::IntArray,
            Value::LongArray(_) => Tag::LongArray,
        }
    }
}

/// A copy of a run of numbers.
fn copy_of<T: Copy>(items: &Vec<T>) -> (copy: Vec<T>)
    ensures
        copy@ == items@,
{
    let mut copy: Vec<T> = Vec::new();
    let mut i: usize = 0;
    while i < items.len()
        invariant
            i <= items.len(),
            copy@ == items@.take(i as int),
        decreases items.len() - i,
    {
        copy.push(items[i]);
        i = i + 1;
        assert(copy@ =~= items@.take(i as int));
    }
    assert(items@.take(i as int) =~= items@);
    copy
}

impl Clone for Value {
    /// A copy of the whole tree.
    #[verifier::loop_isolation(false)]
    fn clone(&self) -> (copy: Value)
        ensures
            copy@ == self@,
        decreases self,
    {
        match self {
            Value::Byte(v) => Value::Byte(*v),
            Value::Short(v) => Value::Short(*v),
            Value::Int(v) => Value::Int(*v),
            Value::Long(v) => Value::Long(*v),
            Value::Float(v) => Value::Float(*v),
            Value::Double(v) => Value::Double(*v),
            Value::ByteArray(v) => Value::ByteArray(copy_of(v)),
            Value::String(v) => Value::String(v.clone()),
            Value::List(items) => {
                let mut copy: Vec<Value> = Vec::new();
                let mut i: usize = 0;
                while i < items.len()
                    invariant
                        i <= items.len(),
                        items_view(copy@) == items_view(items@).take(i as int),
                    decreases items.len() - i,
                {
                    let ghost before = items_view(copy@);
                    copy.push(items[i].clone());
                    i = i + 1;
                    assert(items_view(copy@) =~= items_view(items@).take(i as int));
                }
                assert(items_view(items@).take(i as int) =~= items_view(items@));
                Value::List(copy)
            },
            Value::Compound(entries) => {
                let mut copy: Vec<(String, Value)> = Vec::new();
                let mut i: usize = 0;
                while i < entries.len()
                    invariant
                        i <= entries.len(),
                        entries_view(copy@) == entries_view(entries@).take(i as int),
                    decreases entries.len() - i,
                {
                    let entry = &entries[i];
                    copy.push((entry.0.clone(), entry.1.clone()));
                    i = i + 1;
                    assert(entries_view(copy@) =~= entries_view(entries@).take(i as int));
                }
                assert(entries_view(entries@).take(i as int) =~= entries_view(entries@));
                Value::Compound(copy)
            },
            Value::IntArray(v) => Value::IntArray(copy_of(v)),
            Value::LongArray(v) => Value::LongArray(copy_of(v)),
        }
    }
}

impl Value {
    /// The value of the last entry named `name`, if this is a compound that
    /// has one. Where a name occurs twice, the later entry wins.
    pub fn get(&self, name: &str) -> (found: Option<&Value>)
        ensures
            match self@ {
                ValueView::Compound(entries) => match last_named(entries, name@) {
                    Some(i) => found is Some && found->Some_0@ == entries[i].1,
                    None => found is None,
                },
                _ => found is None,
            },
    {
        match self {
            Value::Compound(entries) => {
                let key = name.to_owned();
                let ghost all = entries_view(entries@);
                let mut i: usize = entries.len();
                assert(all.take(i as int) =~= all);
                while i > 0
                    invariant
                        i <= entries.len(),
                        all == entries_view(entries@),
                        self@ == ValueView::Compound(all),
                        key@ == name@,
                        last_named(all, name@) == last_named(all.take(i as int), name@),
                    decreases i,
                {
                    i = i - 1;
                    assert(all.take(i + 1).last() == all[i as int]);
                    assert(all.take(i + 1).drop_last() =~= all.take(i as int));
                    if entries[i].0 == key {
                        return Some(&entries[i].1);
                    }
                }
                None
            },
            _ => None,
        }
    }
}

/// What `last_named` finds: an entry of that name with no entry of that
/// name behind it, and nothing where no entry has that name.
pub proof fn lemma_last_named(entries: Seq<(Seq<char>, ValueView)>, name: Seq<char>)
    ensures
        match last_named(entries, name) {
            Some(i) => {
                &&& 0 <= i < entries.len()
                &&& entries[i].0 == name
                &&& forall|j: int| i < j < entries.len() ==> (#[trigger] entries[j]).0 != name
            },
            None => forall|j: int| 0 <= j < entries.len() ==> (#[trigger] entries[j]).0 != name,
        },
    decreases entries.len(),
{
    if entries.len() > 0 && entries.last().0 != name {
        let front = entries.drop_last();
        lemma_last_named(front, name);
        assert forall|j: int| 0 <= j < front.len() implies front[j] == entries[j] by {}
        match last_named(front, name) {
            Some(i) => {
                assert forall|j: int| i < j < entries.len() implies (#[trigger] entries[j]).0
                    != name by {
                    if j < front.len() {
                        assert(front[j] == entries[j]);
                    }
                }
            },
            None => {
                assert forall|j: int| 0 <= j < entries.len() implies (#[trigger] entries[j]).0
                    != name by {
                    if j < front.len() {
                        assert(front[j] == entries[j]);
                    }
                }
            },
        }
    }
}

impl Value {
    /// Whether this is a compound whose entry at `index` is the last of its
    /// name, and so the one that a lookup by that name finds.
    pub fn is_last_of_name(&self, index: usize) -> (last: bool)
        ensures
            last == (self@ matches ValueView::Compound(entries) && index < entries.len()
                && last_named(entries, entries[index as int].0) == Some(index as int)),
    {
        match self {
            Value::Compound(entries) => {
                let ghost all = entries_view(entries@);
                assert(self@->Compound_0 == all);
                if index >= entries.len() {
                    return false;
                }
                let ghost name = all[index as int].0;
                proof {
                    lemma_last_named(all, name);
                }
                let mut j: usize = index + 1;
                while j < entries.len()
                    invariant
                        index < j <= entries.len(),
                        all == entries_view(entries@),
                        self@ == ValueView::Compound(all),
                        name == all[index as int].0,
                        forall|k: int| index < k < j ==> (#[trigger] all[k]).0 != name,
                        match last_named(all, name) {
                            Some(i) => {
                                &&& 0 <= i < all.len()
                                &&& all[i].0 == name
                                &&& forall|j: int|
                                    i < j < all.len() ==> (#[trigger] all[j]).0 != name
                            },
                            None => forall|j: int|
                                0 <= j < all.len() ==> (#[trigger] all[j]).0 != name,
                        },
                    decreases entries.len() - j,
                {
                    if entries[j].0 == entries[index].0 {
                        assert(all[j as int].0 == name);
                        return false;
                    }
                    j = j + 1;
                }
                assert(all[index as int].0 == name);
                true
            },
            _ => false,
        }
    }
}

} // verus!
