use vstd::prelude::*;
use crate::error::DocumentError;

verus! {

/// A value of a property list.
#[derive(Debug, PartialEq, Eq)]
pub enum PropertyListValue {
    String(String),
    Boolean(bool),
    Integer(i64),
    Data(Vec<u8>),
    Dictionary(Vec<(String, PropertyListValue)>),
    Array(Vec<PropertyListValue>),
}

/// A property list value as a mathematical tree.
pub ghost enum Plist {
    String(Seq<char>),
    Boolean(bool),
    Integer(int),
    Data(Seq<u8>),
    Dictionary(Seq<(Seq<char>, Plist)>),
    Array(Seq<Plist>),
}

/// The tree that `value` holds.
pub open spec fn plist_of(value: PropertyListValue) -> Plist
    decreases value,
{
    match value {
        PropertyListValue::String(text) => Plist::String(text@),
        PropertyListValue::Boolean(flag) => Plist::Boolean(flag),
        PropertyListValue::Integer(number) => Plist::Integer(number as int),
        PropertyListValue::Data(bytes) => Plist::Data(bytes@),
        PropertyListValue::Dictionary(items) => Plist::Dictionary(items_of(items@)),
        PropertyListValue::Array(items) => Plist::Array(plists_of(items@)),
    }
}

/// The trees that `values` hold, in their order.
pub open spec fn plists_of(values: Seq<PropertyListValue>) -> Seq<Plist>
    decreases values,
{
    if values.len() == 0 {
        Seq::<Plist>::empty()
    } else {
        plists_of(values.drop_last()).push(plist_of(values.last()))
    }
}

/// The keys of `items` with the trees that their values hold, in their
/// order.
pub open spec fn items_of(items: Seq<(String, PropertyListValue)>) -> Seq<(Seq<char>, Plist)>
    decreases items,
{
    if items.len() == 0 {
        Seq::<(Seq<char>, Plist)>::empty()
    } else {
        items_of(items.drop_last()).push((items.last().0@, plist_of(items.last().1)))
    }
}

/// How deep `value` nests: one for a value without parts, and one more
/// than its deepest part for an array or a dictionary, whose keys count as
/// parts.
pub open spec fn depth(value: Plist) -> nat
    decreases value,
{
    match value {
        Plist::Array(members) => 1 + members_depth(members),
        Plist::Dictionary(items) => 1 + items_depth(items),
        _ => 1,
    }
}

/// The depth of the deepest of `members`.
pub open spec fn members_depth(members: Seq<Plist>) -> nat
    decreases members,
{
    if members.len() == 0 {
        0
    } else {
        let before = members_depth(members.drop_last());
        let last = depth(members.last());
        if before >= last {
            before
        } else {
            last
        }
    }
}

/// The depth of the deepest key or value of `items`.
pub open spec fn items_depth(items: Seq<(Seq<char>, Plist)>) -> nat
    decreases items,
{
    if items.len() == 0 {
        0
    } else {
        let before = items_depth(items.drop_last());
        let last = depth(items.last().1);
        if before >= last {
            if before >= 1 {
                before
            } else {
                1
            }
        } else {
            last
        }
    }
}

/// Every value is at least one deep.
pub proof fn lemma_depth_positive(value: Plist)
    ensures
        depth(value) >= 1,
{
}

/// The depth of members is the least bound on the depth of each.
pub proof fn lemma_members_depth(members: Seq<Plist>, bound: nat)
    ensures
        members_depth(members) <= bound <==> forall|i: int|
            0 <= i < members.len() ==> depth(#[trigger] members[i]) <= bound,
    decreases members.len(),
{
    if members.len() > 0 {
        let init = members.drop_last();
        lemma_members_depth(init, bound);
        if members_depth(members) <= bound {
            assert forall|i: int| 0 <= i < members.len() implies depth(#[trigger] members[i])
                <= bound by {
                if i < init.len() {
                    assert(members[i] == init[i]);
                }
            }
        }
        if forall|i: int| 0 <= i < members.len() ==> depth(#[trigger] members[i]) <= bound {
            assert forall|i: int| 0 <= i < init.len() implies depth(#[trigger] init[i])
                <= bound by {
                assert(init[i] == members[i]);
            }
            assert(depth(members[members.len() - 1]) <= bound);
        }
    }
}

/// The depth of items is the least bound on the depth of each value, and
/// at least one where there is an item.
pub proof fn lemma_items_depth(items: Seq<(Seq<char>, Plist)>, bound: nat)
    ensures
        items_depth(items) <= bound <==> (items.len() > 0 ==> bound >= 1) && forall|i: int|
            0 <= i < items.len() ==> depth((#[trigger] items[i]).1) <= bound,
    decreases items.len(),
{
    if items.len() > 0 {
        let init = items.drop_last();
        lemma_items_depth(init, bound);
        lemma_depth_positive(items.last().1);
        if items_depth(items) <= bound {
            assert forall|i: int| 0 <= i < items.len() implies depth((#[trigger] items[i]).1)
                <= bound by {
                if i < init.len() {
                    assert(items[i] == init[i]);
                }
            }
        }
        if forall|i: int| 0 <= i < items.len() ==> depth((#[trigger] items[i]).1) <= bound {
            assert forall|i: int| 0 <= i < init.len() implies depth((#[trigger] init[i]).1)
                <= bound by {
                assert(init[i] == items[i]);
            }
            assert(depth(items[items.len() - 1].1) <= bound);
        }
    }
}

impl View for PropertyListValue {
    type V = Plist;

    open spec fn view(&self) -> Plist {
        plist_of(*self)
    }
}

/// The first place in `items` at which `key` stands, if there is one.
pub open spec fn key_index(items: Seq<(Seq<char>, Plist)>, key: Seq<char>) -> Option<int>
    decreases items.len(),
{
    if items.len() == 0 {
        None
    } else {
        match key_index(items.drop_last(), key) {
            Some(i) => Some(i),
            None => if items.last().0 == key {
                Some(items.len() - 1)
            } else {
                None
            },
        }
    }
}

/// The value that `items` holds under `key`, if there is one.
pub open spec fn item_at(items: Seq<(Seq<char>, Plist)>, key: Seq<char>) -> Option<Plist> {
    match key_index(items, key) {
        Some(i) => Some(items[i].1),
        None => None,
    }
}

/// `items` with `value` under `key`: in the place of the value that was
/// there, or at the end where there was none.
pub open spec fn with_item(items: Seq<(Seq<char>, Plist)>, key: Seq<char>, value: Plist) -> Seq<
    (Seq<char>, Plist),
> {
    match key_index(items, key) {
        Some(i) => items.update(i, (key, value)),
        None => items.push((key, value)),
    }
}

/// No key stands twice in `items`.
pub open spec fn keys_unique(items: Seq<(Seq<char>, Plist)>) -> bool {
    forall|i: int, j: int|
        0 <= i < j < items.len() ==> (#[trigger] items[i]).0 != (#[trigger] items[j]).0
}

/// `key_index` finds the first item with the key, and finds none only where
/// no item has it.
pub proof fn lemma_key_index(items: Seq<(Seq<char>, Plist)>, key: Seq<char>)
    ensures
        match key_index(items, key) {
            Some(i) => 0 <= i < items.len() && items[i].0 == key && forall|j: int|
                0 <= j < i ==> (#[trigger] items[j]).0 != key,
            None => forall|j: int| 0 <= j < items.len() ==> (#[trigger] items[j]).0 != key,
        },
    decreases items.len(),
{
    if items.len() > 0 {
        let init = items.drop_last();
        lemma_key_index(init, key);
        match key_index(init, key) {
            Some(i) => {
                assert(items[i] == init[i]);
                assert forall|j: int| 0 <= j < i implies (#[trigger] items[j]).0 != key by {
                    assert(items[j] == init[j]);
                }
            },
            None => {
                assert forall|j: int| 0 <= j < items.len() - 1 implies (#[trigger] items[j]).0
                    != key by {
                    assert(items[j] == init[j]);
                }
            },
        }
    }
}

/// A place that holds the key and has no holder of it before is the place
/// that `key_index` finds.
pub proof fn lemma_key_index_is(items: Seq<(Seq<char>, Plist)>, key: Seq<char>, at: int)
    requires
        0 <= at < items.len(),
        items[at].0 == key,
        forall|j: int| 0 <= j < at ==> (#[trigger] items[j]).0 != key,
    ensures
        key_index(items, key) == Some(at),
{
    lemma_key_index(items, key);
}

/// Law: what was written under a key is what is read under it, whether or
/// not the key was there before.
pub proof fn lemma_read_after_write(items: Seq<(Seq<char>, Plist)>, key: Seq<char>, value: Plist)
    ensures
        item_at(with_item(items, key, value), key) == Some(value),
{
    lemma_key_index(items, key);
    let after = with_item(items, key, value);
    match key_index(items, key) {
        Some(i) => {
            assert forall|j: int| 0 <= j < i implies (#[trigger] after[j]).0 != key by {
                assert(after[j] == items[j]);
            }
            lemma_key_index_is(after, key, i);
        },
        None => {
            assert forall|j: int| 0 <= j < items.len() implies (#[trigger] after[j]).0 != key by {
                assert(after[j] == items[j]);
            }
            lemma_key_index_is(after, key, items.len() as int);
        },
    }
}

/// Law: writing under one key leaves what is read under every other key as
/// it was.
pub proof fn lemma_write_keeps_others(
    items: Seq<(Seq<char>, Plist)>,
    key: Seq<char>,
    value: Plist,
    other: Seq<char>,
)
    requires
        other != key,
    ensures
        item_at(with_item(items, key, value), other) == item_at(items, other),
{
    lemma_key_index(items, key);
    lemma_key_index(items, other);
    let after = with_item(items, key, value);
    lemma_key_index(after, other);
    match key_index(items, other) {
        Some(i) => {
            assert(after[i] == items[i]);
            assert forall|j: int| 0 <= j < i implies (#[trigger] after[j]).0 != other by {
                if after[j] != items[j] {
                    assert(after[j].0 == key);
                }
            }
            lemma_key_index_is(after, other, i);
        },
        None => {
            match key_index(after, other) {
                Some(k) => {
                    if k < items.len() {
                        if after[k] == items[k] {
                            assert(items[k].0 == other);
                        }
                    }
                },
                None => {},
            }
        },
    }
}

/// Law: writing keeps the order of the keys that were there, keeps the
/// number of items where the key was there and adds one at the end where it
/// was not, and keeps the keys distinct where they were.
pub proof fn lemma_write_in_place(items: Seq<(Seq<char>, Plist)>, key: Seq<char>, value: Plist)
    ensures
        forall|j: int|
            0 <= j < items.len() ==> (#[trigger] with_item(items, key, value)[j]).0 == items[j].0,
        key_index(items, key) is Some ==> with_item(items, key, value).len() == items.len(),
        key_index(items, key) is None ==> with_item(items, key, value).len() == items.len() + 1,
        keys_unique(items) ==> keys_unique(with_item(items, key, value)),
{
    lemma_key_index(items, key);
    let after = with_item(items, key, value);
    if keys_unique(items) {
        assert forall|i: int, j: int| 0 <= i < j < after.len() implies (#[trigger] after[i]).0 != (
        #[trigger] after[j]).0 by {
            if j < items.len() {
                assert(after[i].0 == items[i].0);
                assert(after[j].0 == items[j].0);
            } else {
                assert(after[i] == items[i]);
            }
        }
    }
}

/// A configuration document: a property list held as a tree.
#[derive(Debug, PartialEq, Eq)]
pub struct PropertyListDocument {
    pub root: PropertyListValue,
}

impl View for PropertyListDocument {
    type V = Plist;

    open spec fn view(&self) -> Plist {
        self.root@
    }
}

/// The views of the items of a dictionary.
pub open spec fn item_views(items: Seq<(String, PropertyListValue)>) -> Seq<(Seq<char>, Plist)> {
    Seq::new(items.len(), |i: int| (items[i].0@, items[i].1@))
}

/// The views of the members of an array.
pub open spec fn member_views(values: Seq<PropertyListValue>) -> Seq<Plist> {
    Seq::new(values.len(), |i: int| values[i]@)
}

/// The trees of items are the views of the items, place by place.
pub proof fn lemma_items_of(items: Seq<(String, PropertyListValue)>)
    ensures
        items_of(items) == item_views(items),
    decreases items.len(),
{
    if items.len() > 0 {
        lemma_items_of(items.drop_last());
        assert(items_of(items) =~= item_views(items));
    } else {
        assert(items_of(items) =~= item_views(items));
    }
}

/// The trees of values are the views of the values, place by place.
pub proof fn lemma_plists_of(values: Seq<PropertyListValue>)
    ensures
        plists_of(values) == member_views(values),
    decreases values.len(),
{
    if values.len() > 0 {
        lemma_plists_of(values.drop_last());
        assert(plists_of(values) =~= member_views(values));
    } else {
        assert(plists_of(values) =~= member_views(values));
    }
}

/// The view of a dictionary is made of the views of its items.
pub proof fn lemma_dictionary_view(items: Vec<(String, PropertyListValue)>)
    ensures
        PropertyListValue::Dictionary(items)@ == Plist::Dictionary(item_views(items@)),
{
    lemma_items_of(items@);
}

/// The view of an array is made of the views of its members.
pub proof fn lemma_array_view(values: Vec<PropertyListValue>)
    ensures
        PropertyListValue::Array(values)@ == Plist::Array(member_views(values@)),
{
    lemma_plists_of(values@);
}

impl PropertyListDocument {
    /// A document whose root is an empty dictionary.
    pub fn new() -> (document: PropertyListDocument)
        ensures
            document@ == Plist::Dictionary(Seq::<(Seq<char>, Plist)>::empty()),
    {
        let items: Vec<(String, PropertyListValue)> = Vec::new();
        proof {
            lemma_dictionary_view(items);
            assert(item_views(items@) == Seq::<(Seq<char>, Plist)>::empty());
        }
        PropertyListDocument { root: PropertyListValue::Dictionary(items) }
    }

    /// The place of the first item of `items` with the key `key`.
    fn find_key(items: &Vec<(String, PropertyListValue)>, key: &str) -> (found: Option<usize>)
        ensures
            match found {
                Some(i) => key_index(item_views(items@), key@) == Some(i as int) && i
                    < items.len(),
                None => key_index(item_views(items@), key@) is None,
            },
    {
        let wanted = key.to_owned();
        let ghost views = item_views(items@);
        let mut i: usize = 0;
        while i < items.len()
            invariant
                i <= items.len(),
                wanted@ == key@,
                views == item_views(items@),
                forall|j: int| 0 <= j < i ==> (#[trigger] views[j]).0 != key@,
            decreases items.len() - i,
        {
            proof {
                assert(views[i as int].0 == items[i as int].0@);
            }
            if items[i].0 == wanted {
                proof {
                    lemma_key_index_is(views, key@, i as int);
                }
                return Some(i);
            }
            i += 1;
        }
        proof {
            lemma_key_index(views, key@);
        }
        None
    }

    /// Reads the value under `key` in the root dictionary.
    ///
    /// Fails where the root is no dictionary; gives `None` where the
    /// dictionary has no such key.
    pub fn get_dictionary_item(&self, key: &str) -> (item: Result<
        Option<&PropertyListValue>,
        DocumentError,
    >)
        ensures
            match self@ {
                Plist::Dictionary(items) => match item {
                    Ok(Some(value)) => item_at(items, key@) == Some(value@),
                    Ok(None) => item_at(items, key@) is None,
                    Err(_) => false,
                },
                _ => item == Err::<Option<&PropertyListValue>, DocumentError>(
                    DocumentError::WrongRootType,
                ),
            },
    {
        match &self.root {
            PropertyListValue::Dictionary(items) => {
                proof {
                    lemma_dictionary_view(*items);
                }
                match Self::find_key(items, key) {
                    Some(i) => {
                        proof {
                            assert(item_views(items@)[i as int].1 == items[i as int].1@);
                        }
                        Ok(Some(&items[i].1))
                    },
                    None => Ok(None),
                }
            },
            _ => Err(DocumentError::WrongRootType),
        }
    }

    /// Writes `value` under `key` in the root dictionary: over the value
    /// that was there, in its place, or at the end where the key is new.
    ///
    /// Fails where the root is no dictionary, and then leaves the document
    /// as it was.
    pub fn set_dictionary_item(&mut self, key: &str, value: PropertyListValue) -> (written:
        Result<(), DocumentError>)
        ensures
            match old(self)@ {
                Plist::Dictionary(items) => written is Ok && final(self)@ == Plist::Dictionary(
                    with_item(items, key@, value@),
                ),
                _ => written == Err::<(), DocumentError>(DocumentError::WrongRootType)
                    && final(self)@ == old(self)@,
            },
    {
        match &mut self.root {
            PropertyListValue::Dictionary(items) => {
                let ghost before = item_views(items@);
                proof {
                    lemma_dictionary_view(*items);
                }
                match Self::find_key(items, key) {
                    Some(i) => {
                        items[i] = (key.to_owned(), value);
                    },
                    None => {
                        items.push((key.to_owned(), value));
                    },
                }
                proof {
                    lemma_dictionary_view(*items);
                    assert(item_views(items@) == with_item(before, key@, value@));
                }
                Ok(())
            },
            _ => Err(DocumentError::WrongRootType),
        }
    }
}

} // verus!
