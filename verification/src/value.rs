//! The document tree that a search walks, its mathematical model, and the
//! equality by which a value search recognises its target.

use vstd::prelude::*;

verus! {

/// A leaf of a document.
///
/// A number keeps the encoding it was read in.
#[derive(Debug)]
pub enum Scalar {
    Null,
    Bool(bool),
    /// An integer that fits a signed encoding.
    Int(i64),
    /// An integer that fits an unsigned encoding.
    UInt(u64),
    /// A number with a fraction or an exponent, as the bit pattern of its
    /// IEEE 754 binary64 encoding.
    Float(u64),
    Str(String),
}

/// A node of a document: a leaf, an ordered sequence of nodes, or a sequence of
/// keyed nodes in the order in which the document lists them.
///
/// The keys of an object are meant to be pairwise distinct. Nothing here
/// relies on it but the laws that say so.
#[derive(Debug)]
pub enum Value {
    Scalar(Scalar),
    Array(Vec<Value>),
    Object(Vec<(String, Value)>),
}

/// The mathematical model of a [`Value`].
///
/// The two integer encodings share one variant: an integer is the number it
/// denotes. A float is the bit pattern that [`float_number`] gives it, so two
/// floats are one number only where they have one encoding, the two zeros
/// apart, and a float is never an integer.
pub ghost enum Tree {
    Null,
    Bool(bool),
    Int(int),
    Float(u64),
    Str(Seq<char>),
    Array(Seq<Tree>),
    Object(Seq<(Seq<char>, Tree)>),
}

/// The bit pattern that stands for the number a float denotes: its own, but
/// for the negative zero, which denotes the number zero.
pub open spec fn float_number(bits: u64) -> u64 {
    if bits == 0x8000_0000_0000_0000 {
        0
    } else {
        bits
    }
}

impl View for Scalar {
    type V = Tree;

    open spec fn view(&self) -> Tree {
        match *self {
            Scalar::Null => Tree::Null,
            Scalar::Bool(b) => Tree::Bool(b),
            Scalar::Int(i) => Tree::Int(i as int),
            Scalar::UInt(u) => Tree::Int(u as int),
            Scalar::Float(bits) => Tree::Float(float_number(bits)),
            Scalar::Str(s) => Tree::Str(s@),
        }
    }
}

/// The model of a document: each leaf by its own model, each array and
/// object by the models of what it holds, in order.
pub open spec fn tree_of(v: Value) -> Tree
    decreases v,
{
    match v {
        Value::Scalar(s) => s@,
        Value::Array(items) => Tree::Array(
            Seq::new(
                items@.len(),
                |i: int|
                    if 0 <= i < items@.len() {
                        tree_of(items@[i])
                    } else {
                        Tree::Null
                    },
            ),
        ),
        Value::Object(entries) => Tree::Object(
            Seq::new(
                entries@.len(),
                |i: int|
                    if 0 <= i < entries@.len() {
                        (entries@[i].0@, tree_of(entries@[i].1))
                    } else {
                        (Seq::empty(), Tree::Null)
                    },
            ),
        ),
    }
}

impl View for Value {
    type V = Tree;

    open spec fn view(&self) -> Tree {
        tree_of(*self)
    }
}

/// Whether `a` and `b` are the same document.
///
/// Leaves are the same when their models are equal: the same kind and the
/// same content, an integer being the number it denotes. Arrays are the same
/// when they have the same length and the same items, position by position.
/// Objects are the same when they have as many entries and each entry of `a`
/// has its like in `b`; where entries lie in the object does not matter.
pub open spec fn same(a: Tree, b: Tree) -> bool
    decreases a, 0int,
{
    match a {
        Tree::Array(xs) => {
            &&& b matches Tree::Array(ys)
            &&& xs.len() == ys.len()
            &&& forall|i: int| 0 <= i < xs.len() ==> same(xs[i], ys[i])
        },
        Tree::Object(xs) => {
            &&& b matches Tree::Object(ys)
            &&& xs.len() == ys.len()
            &&& forall|i: int| 0 <= i < xs.len() ==> holds(ys, xs[i].0, xs[i].1)
        },
        _ => a == b,
    }
}

/// Whether `entries` has an entry under `key` whose value is the same as `value`.
pub open spec fn holds(entries: Seq<(Seq<char>, Tree)>, key: Seq<char>, value: Tree) -> bool
    decreases value, 1int,
{
    exists|j: int| 0 <= j < entries.len() && entries[j].0 == key && same(value, entries[j].1)
}

impl Scalar {
    /// Whether the two leaves are the same: of one kind and with the same
    /// content. The two integer encodings count as one kind, so an integer
    /// is the same in either; a float is not the same as any integer.
    pub fn equals(&self, other: &Scalar) -> (r: bool)
        ensures
            r == (self@ == other@),
    {
        match (self, other) {
            (Scalar::Null, Scalar::Null) => true,
            (Scalar::Bool(a), Scalar::Bool(b)) => *a == *b,
            (Scalar::Int(a), Scalar::Int(b)) => *a == *b,
            (Scalar::UInt(a), Scalar::UInt(b)) => *a == *b,
            (Scalar::Int(a), Scalar::UInt(b)) => *a >= 0 && *a as u64 == *b,
            (Scalar::UInt(a), Scalar::Int(b)) => *b >= 0 && *b as u64 == *a,
            (Scalar::Float(a), Scalar::Float(b)) => {
                let a: u64 = if *a == 0x8000_0000_0000_0000 { 0 } else { *a };
                let b: u64 = if *b == 0x8000_0000_0000_0000 { 0 } else { *b };
                a == b
            },
            (Scalar::Str(a), Scalar::Str(b)) => *a == *b,
            _ => false,
        }
    }
}

/// The models of the items of an array, in order.
pub open spec fn item_trees(items: Seq<Value>) -> Seq<Tree> {
    Seq::new(items.len(), |i: int| items[i]@)
}

/// The models of the entries of an object, in order.
pub open spec fn entry_trees(entries: Seq<(String, Value)>) -> Seq<(Seq<char>, Tree)> {
    Seq::new(entries.len(), |i: int| (entries[i].0@, entries[i].1@))
}

/// The model of an array is the array of its items' models.
pub proof fn lemma_array_view(items: Vec<Value>)
    ensures
        Value::Array(items)@ == Tree::Array(item_trees(items@)),
{
    assert(Value::Array(items)@->Array_0 =~= item_trees(items@));
}

/// The model of an object is the object of its entries' models.
pub proof fn lemma_object_view(entries: Vec<(String, Value)>)
    ensures
        Value::Object(entries)@ == Tree::Object(entry_trees(entries@)),
{
    assert(Value::Object(entries)@->Object_0 =~= entry_trees(entries@));
}

impl Value {
    /// Whether the two documents are the same, as [`same`] defines it.
    pub fn equals(&self, other: &Value) -> (r: bool)
        ensures
            r == same(self@, other@),
        decreases self,
    {
        match (self, other) {
            (Value::Scalar(a), Value::Scalar(b)) => a.equals(b),
            (Value::Array(xs), Value::Array(ys)) => {
                proof {
                    lemma_array_view(*xs);
                    lemma_array_view(*ys);
                }
                if xs.len() != ys.len() {
                    return false;
                }
                let mut i: usize = 0;
                while i < xs.len()
                    invariant
                        i <= xs.len(),
                        xs.len() == ys.len(),
                        decreases_to!(self => xs),
                        self@ == Tree::Array(item_trees(xs@)),
                        other@ == Tree::Array(item_trees(ys@)),
                        forall|k: int| 0 <= k < i ==> same(item_trees(xs@)[k], item_trees(ys@)[k]),
                    decreases xs.len() - i,
                {
                    if !xs[i].equals(&ys[i]) {
                        assert(!same(item_trees(xs@)[i as int], item_trees(ys@)[i as int]));
                        return false;
                    }
                    i += 1;
                }
                true
            },
            (Value::Object(xs), Value::Object(ys)) => {
                proof {
                    lemma_object_view(*xs);
                    lemma_object_view(*ys);
                }
                if xs.len() != ys.len() {
                    return false;
                }
                let mut i: usize = 0;
                while i < xs.len()
                    invariant
                        i <= xs.len(),
                        xs.len() == ys.len(),
                        decreases_to!(self => xs),
                        self@ == Tree::Object(entry_trees(xs@)),
                        other@ == Tree::Object(entry_trees(ys@)),
                        forall|k: int|
                            0 <= k < i ==> holds(
                                entry_trees(ys@),
                                entry_trees(xs@)[k].0,
                                entry_trees(xs@)[k].1,
                            ),
                    decreases xs.len() - i,
                {
                    let ghost key = entry_trees(xs@)[i as int].0;
                    let ghost value = entry_trees(xs@)[i as int].1;
                    let mut j: usize = 0;
                    let mut found = false;
                    while !found && j < ys.len()
                        invariant
                            i < xs.len(),
                            j <= ys.len(),
                            decreases_to!(self => xs),
                            key == xs@[i as int].0@,
                            value == xs@[i as int].1@,
                            found ==> holds(entry_trees(ys@), key, value),
                            !found ==> forall|m: int|
                                0 <= m < j ==> !(entry_trees(ys@)[m].0 == key && same(
                                    value,
                                    entry_trees(ys@)[m].1,
                                )),
                        decreases ys.len() - j + if found { 0int } else { 1int },
                    {
                        if xs[i].0 == ys[j].0 && xs[i].1.equals(&ys[j].1) {
                            assert(entry_trees(ys@)[j as int].0 == key && same(
                                value,
                                entry_trees(ys@)[j as int].1,
                            ));
                            found = true;
                        } else {
                            j += 1;
                        }
                    }
                    if !found {
                        assert(!holds(entry_trees(ys@), key, value));
                        return false;
                    }
                    i += 1;
                }
                true
            },
            _ => false,
        }
    }
}

/// The keys of the entries of an object, in order.
pub open spec fn keys_of(entries: Seq<(Seq<char>, Tree)>) -> Seq<Seq<char>> {
    Seq::new(entries.len(), |i: int| entries[i].0)
}

/// Two objects whose keys are pairwise distinct are the same exactly when
/// they have the same keys and, under each key, values that are the same. The
/// order of their entries plays no part.
pub proof fn lemma_same_objects(xs: Seq<(Seq<char>, Tree)>, ys: Seq<(Seq<char>, Tree)>)
    requires
        keys_of(xs).no_duplicates(),
        keys_of(ys).no_duplicates(),
    ensures
        same(Tree::Object(xs), Tree::Object(ys)) <==> {
            &&& keys_of(xs).to_set() == keys_of(ys).to_set()
            &&& forall|i: int, j: int|
                0 <= i < xs.len() && 0 <= j < ys.len() && xs[i].0 == ys[j].0 ==> same(
                    #[trigger] xs[i].1,
                    #[trigger] ys[j].1,
                )
        },
{
    let kx = keys_of(xs);
    let ky = keys_of(ys);
    kx.unique_seq_to_set();
    ky.unique_seq_to_set();
    if same(Tree::Object(xs), Tree::Object(ys)) {
        assert forall|key: Seq<char>| kx.to_set().contains(key) implies ky.to_set().contains(
            key,
        ) by {
            let i = choose|i: int| 0 <= i < kx.len() && kx[i] == key;
            assert(holds(ys, xs[i].0, xs[i].1));
            let j = choose|j: int| 0 <= j < ys.len() && ys[j].0 == xs[i].0 && same(xs[i].1, ys[j].1);
            assert(ky[j] == key);
        }
        vstd::set_lib::lemma_subset_equality(kx.to_set(), ky.to_set());
        assert forall|i: int, j: int|
            0 <= i < xs.len() && 0 <= j < ys.len() && xs[i].0 == ys[j].0 implies same(
            #[trigger] xs[i].1,
            #[trigger] ys[j].1,
        ) by {
            assert(holds(ys, xs[i].0, xs[i].1));
            let like = choose|like: int|
                0 <= like < ys.len() && ys[like].0 == xs[i].0 && same(xs[i].1, ys[like].1);
            assert(ky[like] == ky[j]);
        }
    }
    if keys_of(xs).to_set() == keys_of(ys).to_set() && (forall|i: int, j: int|
        0 <= i < xs.len() && 0 <= j < ys.len() && xs[i].0 == ys[j].0 ==> same(
            #[trigger] xs[i].1,
            #[trigger] ys[j].1,
        )) {
        assert forall|i: int| 0 <= i < xs.len() implies holds(ys, xs[i].0, xs[i].1) by {
            assert(kx[i] == xs[i].0);
            assert(ky.to_set().contains(xs[i].0));
            let j = choose|j: int| 0 <= j < ky.len() && ky[j] == xs[i].0;
        }
    }
}

} // verus!
