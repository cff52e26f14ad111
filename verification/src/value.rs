//! The value model of the wire format: integers, byte strings, lists, and
//! dictionaries whose keys are byte strings in ascending order.

use vstd::prelude::*;

verus! {

/// A wire value as a mathematical object.
///
/// A dictionary is the sequence of its entries. It is well formed when its keys
/// ascend strictly, so that no key occurs twice and equal dictionaries are equal
/// sequences.
pub enum Datum {
    Int(i64),
    Bytes(Seq<u8>),
    List(Seq<Datum>),
    Dict(Seq<(Seq<u8>, Datum)>),
}

/// A wire value as held in memory.
///
/// A dictionary holds its entries in ascending order of their keys, each key once.
/// `dict_insert` keeps it so, and every value that this library hands out obeys
/// it; `is_canonical` tells whether a value does.
#[derive(Debug)]
pub enum Bencode {
    Int(i64),
    Bytes(Vec<u8>),
    List(Vec<Bencode>),
    Dict(Vec<(Vec<u8>, Bencode)>),
}

/// How one key stands to another in byte-lexicographic order.
#[derive(Clone, Copy, Debug, PartialEq, Eq, Structural)]
pub enum KeyOrder {
    Less,
    Equal,
    Greater,
}

/// Byte-lexicographic order: `a` comes strictly before `b`.
pub open spec fn bytes_lt(a: Seq<u8>, b: Seq<u8>) -> bool
    decreases a.len(),
{
    if b.len() == 0 {
        false
    } else if a.len() == 0 {
        true
    } else if a[0] != b[0] {
        a[0] < b[0]
    } else {
        bytes_lt(a.skip(1), b.skip(1))
    }
}

/// How `a` stands to `b`.
pub open spec fn spec_key_order(a: Seq<u8>, b: Seq<u8>) -> KeyOrder {
    if bytes_lt(a, b) {
        KeyOrder::Less
    } else if a == b {
        KeyOrder::Equal
    } else {
        KeyOrder::Greater
    }
}

/// True when the keys of `entries` ascend strictly.
pub open spec fn keys_ascending(entries: Seq<(Seq<u8>, Datum)>) -> bool {
    forall|i: int, j: int|
        0 <= i < j < entries.len() ==> bytes_lt(#[trigger] entries[i].0, #[trigger] entries[j].0)
}

impl Datum {
    /// True when the value can be held in memory and is in canonical form: the
    /// length of every byte string fits the machine, and every dictionary has
    /// strictly ascending keys.
    pub open spec fn wf(self) -> bool
        decreases self,
    {
        match self {
            Datum::Int(_) => true,
            Datum::Bytes(bytes) => bytes.len() <= usize::MAX,
            Datum::List(items) => list_wf(items),
            Datum::Dict(entries) => dict_wf(entries),
        }
    }
}

/// True when every item is well formed.
pub open spec fn list_wf(items: Seq<Datum>) -> bool
    decreases items,
{
    forall|i: int| 0 <= i < items.len() ==> (#[trigger] items[i]).wf()
}

/// True when the keys ascend strictly, every key fits the machine and every value is
/// well formed.
pub open spec fn dict_wf(entries: Seq<(Seq<u8>, Datum)>) -> bool
    decreases entries,
{
    keys_ascending(entries) && forall|i: int|
        0 <= i < entries.len() ==> (#[trigger] entries[i]).0.len() <= usize::MAX
            && entries[i].1.wf()
}

/// The value that a value in memory stands for.
pub open spec fn value_of(b: Bencode) -> Datum
    decreases b,
{
    match b {
        Bencode::Int(n) => Datum::Int(n),
        Bencode::Bytes(bytes) => Datum::Bytes(bytes@),
        Bencode::List(items) => Datum::List(items_view(items@)),
        Bencode::Dict(entries) => Datum::Dict(entries_view(entries@)),
    }
}

/// The values that a vector of values in memory stands for.
pub open spec fn items_view(items: Seq<Bencode>) -> Seq<Datum>
    decreases items,
{
    if items.len() == 0 {
        Seq::empty()
    } else {
        items_view(items.drop_last()).push(value_of(items.last()))
    }
}

/// The entries that a vector of entries in memory stands for.
pub open spec fn entries_view(entries: Seq<(Vec<u8>, Bencode)>) -> Seq<(Seq<u8>, Datum)>
    decreases entries,
{
    if entries.len() == 0 {
        Seq::empty()
    } else {
        entries_view(entries.drop_last()).push((entries.last().0@, value_of(entries.last().1)))
    }
}

impl View for Bencode {
    type V = Datum;

    open spec fn view(&self) -> Datum {
        value_of(*self)
    }
}

/// The view of a vector of values has the view of each value at its index.
pub proof fn lemma_items_view(items: Seq<Bencode>)
    ensures
        items_view(items).len() == items.len(),
        forall|i: int| 0 <= i < items.len() ==> (#[trigger] items_view(items)[i]) == items[i]@,
    decreases items.len(),
{
    if items.len() > 0 {
        lemma_items_view(items.drop_last());
    }
}

/// The view of a vector of entries has the view of each entry at its index.
pub proof fn lemma_entries_view(entries: Seq<(Vec<u8>, Bencode)>)
    ensures
        entries_view(entries).len() == entries.len(),
        forall|i: int|
            0 <= i < entries.len() ==> (#[trigger] entries_view(entries)[i]) == (
                entries[i].0@,
                entries[i].1@,
            ),
    decreases entries.len(),
{
    if entries.len() > 0 {
        lemma_entries_view(entries.drop_last());
    }
}

/// No byte string comes before itself.
pub proof fn lemma_bytes_lt_irreflexive(a: Seq<u8>)
    ensures
        !bytes_lt(a, a),
    decreases a.len(),
{
    if a.len() > 0 {
        lemma_bytes_lt_irreflexive(a.skip(1));
    }
}

/// The order is transitive.
pub proof fn lemma_bytes_lt_transitive(a: Seq<u8>, b: Seq<u8>, c: Seq<u8>)
    requires
        bytes_lt(a, b),
        bytes_lt(b, c),
    ensures
        bytes_lt(a, c),
    decreases a.len(),
{
    if a.len() > 0 && a[0] == b[0] && b[0] == c[0] {
        lemma_bytes_lt_transitive(a.skip(1), b.skip(1), c.skip(1));
    }
}

/// Of two different byte strings one comes before the other.
pub proof fn lemma_bytes_lt_total(a: Seq<u8>, b: Seq<u8>)
    ensures
        bytes_lt(a, b) || a == b || bytes_lt(b, a),
    decreases a.len(),
{
    if a.len() == 0 || b.len() == 0 {
        assert(a.len() == 0 && b.len() == 0 ==> a =~= b);
    } else if a[0] == b[0] {
        lemma_bytes_lt_total(a.skip(1), b.skip(1));
        if a.skip(1) == b.skip(1) {
            assert(a =~= seq![a[0]] + a.skip(1));
            assert(b =~= seq![b[0]] + b.skip(1));
        }
    }
}

/// Compares two keys in byte-lexicographic order.
pub fn key_order(a: &[u8], b: &[u8]) -> (r: KeyOrder)
    ensures
        r == spec_key_order(a@, b@),
{
    let mut i: usize = 0;
    proof {
        assert(a@.skip(0) =~= a@);
        assert(b@.skip(0) =~= b@);
    }
    while i < a.len() && i < b.len()
        invariant
            i <= a@.len(),
            i <= b@.len(),
            a@.take(i as int) == b@.take(i as int),
            bytes_lt(a@, b@) == bytes_lt(a@.skip(i as int), b@.skip(i as int)),
        decreases a@.len() - i,
    {
        let x: u8 = a[i];
        let y: u8 = b[i];
        proof {
            assert(a@.skip(i as int)[0] == x);
            assert(b@.skip(i as int)[0] == y);
            assert(a@.skip(i as int).skip(1) =~= a@.skip(i + 1));
            assert(b@.skip(i as int).skip(1) =~= b@.skip(i + 1));
        }
        if x < y {
            return KeyOrder::Less;
        }
        if x > y {
            return KeyOrder::Greater;
        }
        proof {
            assert(a@.take(i + 1) =~= a@.take(i as int).push(x));
            assert(b@.take(i + 1) =~= b@.take(i as int).push(y));
        }
        i = i + 1;
    }
    proof {
        assert(a@.take(a@.len() as int) =~= a@);
        assert(b@.take(b@.len() as int) =~= b@);
    }
    if i < b.len() {
        KeyOrder::Less
    } else if i < a.len() {
        KeyOrder::Greater
    } else {
        KeyOrder::Equal
    }
}

/// Whether two byte strings are the same.
pub fn bytes_eq(a: &[u8], b: &[u8]) -> (r: bool)
    ensures
        r == (a@ == b@),
{
    proof {
        lemma_bytes_lt_irreflexive(a@);
    }
    key_order(a, b) == KeyOrder::Equal
}

/// The integer that `val` holds, if it is one.
pub fn bencode_int(val: &Bencode) -> (r: Option<i64>)
    ensures
        r == (match val@ {
            Datum::Int(n) => Some(n),
            _ => None,
        }),
{
    match val {
        Bencode::Int(i) => Some(*i),
        _ => None,
    }
}

/// Adding a value to a vector adds its view to the vector's view.
pub proof fn lemma_items_view_push(items: Seq<Bencode>, item: Bencode)
    ensures
        items_view(items.push(item)) == items_view(items).push(item@),
{
    assert(items.push(item).drop_last() =~= items);
}

/// Adding an entry to a vector adds its view to the vector's view.
pub proof fn lemma_entries_view_push(entries: Seq<(Vec<u8>, Bencode)>, entry: (Vec<u8>, Bencode))
    ensures
        entries_view(entries.push(entry)) == entries_view(entries).push((entry.0@, entry.1@)),
{
    assert(entries.push(entry).drop_last() =~= entries);
}

/// A list of well-formed items stays well formed when a well-formed item joins it.
pub proof fn lemma_list_push_wf(items: Seq<Datum>, item: Datum)
    requires
        list_wf(items),
        item.wf(),
    ensures
        list_wf(items.push(item)),
{
    let grown = items.push(item);
    assert forall|j: int| 0 <= j < grown.len() implies (#[trigger] grown[j]).wf() by {
        if j < items.len() {
            assert(grown[j] == items[j]);
        }
    }
}

/// A fresh vector with the bytes of `bytes`.
pub fn copy_bytes(bytes: &[u8]) -> (r: Vec<u8>)
    ensures
        r@ == bytes@,
        r@.len() <= usize::MAX,
{
    let mut out: Vec<u8> = Vec::new();
    let mut i: usize = 0;
    while i < bytes.len()
        invariant
            i <= bytes@.len(),
            out@ == bytes@.take(i as int),
        decreases bytes@.len() - i,
    {
        out.push(bytes[i]);
        proof {
            assert(bytes@.take(i + 1) =~= bytes@.take(i as int).push(bytes@[i as int]));
        }
        i = i + 1;
    }
    proof {
        assert(bytes@.take(bytes@.len() as int) =~= bytes@);
        assert(out@.len() == out.len());
    }
    out
}

impl Clone for Bencode {
    /// A fresh value that stands for the same wire value.
    fn clone(&self) -> (r: Bencode)
        ensures
            r@ == self@,
        decreases self,
    {
        match self {
            Bencode::Int(n) => Bencode::Int(*n),
            Bencode::Bytes(bytes) => Bencode::Bytes(copy_bytes(bytes.as_slice())),
            Bencode::List(items) => {
                let mut out: Vec<Bencode> = Vec::new();
                let mut i: usize = 0;
                while i < items.len()
                    invariant
                        i <= items@.len(),
                        self == Bencode::List(*items),
                        items_view(out@) == items_view(items@.take(i as int)),
                    decreases items@.len() - i,
                {
                    proof {
                        assert(decreases_to!(self => self->List_0));
                        assert(decreases_to!(self => items[i as int]));
                    }
                    let item = items[i].clone();
                    proof {
                        lemma_items_view_push(out@, item);
                        lemma_items_view_push(items@.take(i as int), items@[i as int]);
                        assert(items@.take(i + 1) =~= items@.take(i as int).push(items@[i as int]));
                    }
                    out.push(item);
                    i = i + 1;
                }
                proof {
                    assert(items@.take(items@.len() as int) =~= items@);
                }
                Bencode::List(out)
            },
            Bencode::Dict(entries) => {
                let mut out: Vec<(Vec<u8>, Bencode)> = Vec::new();
                let mut i: usize = 0;
                while i < entries.len()
                    invariant
                        i <= entries@.len(),
                        self == Bencode::Dict(*entries),
                        entries_view(out@) == entries_view(entries@.take(i as int)),
                    decreases entries@.len() - i,
                {
                    let key = copy_bytes(entries[i].0.as_slice());
                    proof {
                        assert(decreases_to!(self => self->Dict_0));
                        assert(decreases_to!(self => entries[i as int]));
                        assert(decreases_to!(self => entries[i as int].1));
                    }
                    let value = entries[i].1.clone();
                    proof {
                        lemma_entries_view_push(out@, (key, value));
                        lemma_entries_view_push(entries@.take(i as int), entries@[i as int]);
                        assert(entries@.take(i + 1) =~= entries@.take(i as int).push(
                            entries@[i as int],
                        ));
                    }
                    out.push((key, value));
                    i = i + 1;
                }
                proof {
                    assert(entries@.take(entries@.len() as int) =~= entries@);
                }
                Bencode::Dict(out)
            },
        }
    }
}

/// Entries whose keys ascend stay so when an entry joins them whose key comes after
/// the last.
pub proof fn lemma_keys_ascending_push(entries: Seq<(Seq<u8>, Datum)>, entry: (Seq<u8>, Datum))
    requires
        keys_ascending(entries),
        entries.len() > 0 ==> bytes_lt(entries.last().0, entry.0),
    ensures
        keys_ascending(entries.push(entry)),
{
    let grown = entries.push(entry);
    assert forall|i: int, j: int| 0 <= i < j < grown.len() implies bytes_lt(
        #[trigger] grown[i].0,
        #[trigger] grown[j].0,
    ) by {
        if j < entries.len() {
            assert(grown[i] == entries[i] && grown[j] == entries[j]);
        } else {
            assert(grown[i] == entries[i]);
            if i < entries.len() - 1 {
                assert(bytes_lt(entries[i].0, entries[entries.len() - 1].0));
                lemma_bytes_lt_transitive(entries[i].0, entries.last().0, entry.0);
            }
        }
    }
}

impl Bencode {
    /// Whether the value is well formed: whether every dictionary in it holds its
    /// entries in strictly ascending order of their keys.
    pub fn is_canonical(&self) -> (r: bool)
        ensures
            r == self@.wf(),
        decreases self,
    {
        match self {
            Bencode::Int(_) => true,
            Bencode::Bytes(bytes) => {
                proof {
                    assert(bytes@.len() == bytes.len());
                }
                true
            },
            Bencode::List(items) => {
                let ghost views = items_view(items@);
                proof {
                    lemma_items_view(items@);
                }
                let mut i: usize = 0;
                while i < items.len()
                    invariant
                        i <= items@.len(),
                        self == Bencode::List(*items),
                        views == items_view(items@),
                        views.len() == items@.len(),
                        forall|j: int|
                            0 <= j < items@.len() ==> (#[trigger] views[j]) == items@[j]@,
                        forall|j: int| 0 <= j < i ==> (#[trigger] views[j]).wf(),
                    decreases items@.len() - i,
                {
                    proof {
                        assert(decreases_to!(self => self->List_0));
                        assert(decreases_to!(self => items[i as int]));
                    }
                    if !items[i].is_canonical() {
                        proof {
                            assert(!views[i as int].wf());
                        }
                        return false;
                    }
                    i = i + 1;
                }
                true
            },
            Bencode::Dict(entries) => {
                let ghost views = entries_view(entries@);
                proof {
                    lemma_entries_view(entries@);
                    assert(views.take(0) =~= Seq::<(Seq<u8>, Datum)>::empty());
                }
                let mut i: usize = 0;
                while i < entries.len()
                    invariant
                        i <= entries@.len(),
                        self == Bencode::Dict(*entries),
                        views == entries_view(entries@),
                        views.len() == entries@.len(),
                        forall|j: int|
                            0 <= j < entries@.len() ==> (#[trigger] views[j]) == (
                                entries@[j].0@,
                                entries@[j].1@,
                            ),
                        dict_wf(views.take(i as int)),
                    decreases entries@.len() - i,
                {
                    proof {
                        assert(decreases_to!(self => self->Dict_0));
                        assert(decreases_to!(self => entries[i as int]));
                        assert(decreases_to!(self => entries[i as int].1));
                        assert(views.take(i + 1) =~= views.take(i as int).push(views[i as int]));
                        if i > 0 {
                            assert(views.take(i as int).last() == views[i - 1]);
                        }
                    }
                    if i > 0 && key_order(entries[i - 1].0.as_slice(), entries[i].0.as_slice())
                        != KeyOrder::Less {
                        return false;
                    }
                    if !entries[i].1.is_canonical() {
                        proof {
                            assert(!views[i as int].1.wf());
                        }
                        return false;
                    }
                    proof {
                        lemma_keys_ascending_push(views.take(i as int), views[i as int]);
                        assert(entries@[i as int].0@.len() == entries@[i as int].0.len());
                        let grown = views.take(i + 1);
                        assert forall|j: int| 0 <= j < grown.len() implies (#[trigger] grown[
                            j
                        ]).0.len() <= usize::MAX && grown[j].1.wf() by {
                            if j < i {
                                assert(grown[j] == views.take(i as int)[j]);
                            }
                        }
                    }
                    i = i + 1;
                }
                proof {
                    assert(views.take(views.len() as int) =~= views);
                }
                true
            },
        }
    }
}

} // verus!
