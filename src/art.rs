use vstd::prelude::*;

verus! {

/// Number of children a `Node4` holds.
pub const NODE4_CAPACITY: usize = 4;

/// The key bytes are in strictly increasing order.
pub open spec fn strictly_sorted(keys: Seq<u8>) -> bool {
    forall|i: int, j: int| 0 <= i < j < keys.len() ==> keys[i] < keys[j]
}

/// Where `byte` goes among sorted `keys`: the number of keys below it.
pub open spec fn insert_position(keys: Seq<u8>, byte: u8) -> int {
    keys.filter(|k: u8| k < byte).len() as int
}

/// The smallest inner node of an adaptive radix tree: up to four children, each under
/// a distinct key byte, kept in increasing key order.
pub struct Node4 {
    key: Vec<u8>,
    prefix_len: usize,
    child_ptr: Vec<Option<Box<Node4>>>,
}

impl Node4 {
    /// The key bytes of the children, in order.
    pub closed spec fn keys(&self) -> Seq<u8> {
        self.key@
    }

    /// The children, in key order.
    pub closed spec fn children(&self) -> Seq<Option<Box<Node4>>> {
        self.child_ptr@
    }

    pub closed spec fn spec_prefix_len(&self) -> usize {
        self.prefix_len
    }

    /// Keys and children line up, at most four of them, keys strictly increasing.
    pub open spec fn wf(&self) -> bool {
        &&& self.keys().len() == self.children().len()
        &&& self.keys().len() <= NODE4_CAPACITY
        &&& strictly_sorted(self.keys())
    }

    /// A node with no children and an empty prefix.
    pub fn new() -> (r: Self)
        ensures
            r.wf(),
            r.keys() == Seq::<u8>::empty(),
            r.spec_prefix_len() == 0,
    {
        Node4 { key: Vec::new(), prefix_len: 0, child_ptr: Vec::new() }
    }

    pub fn is_leaf(&self) -> (r: bool)
        ensures
            !r,
    {
        false
    }

    pub fn prefix_len(&self) -> (r: usize)
        ensures
            r == self.spec_prefix_len(),
    {
        self.prefix_len
    }

    /// Number of children.
    pub fn len(&self) -> (r: usize)
        requires
            self.wf(),
        ensures
            r == self.keys().len(),
    {
        self.key.len()
    }

    /// The key byte of the `i`-th child.
    pub fn key_at(&self, i: usize) -> (r: u8)
        requires
            self.wf(),
            i < self.keys().len(),
        ensures
            r == self.keys()[i as int],
    {
        self.key[i]
    }

    /// Whether the `i`-th child slot holds a node.
    pub fn has_child_at(&self, i: usize) -> (r: bool)
        requires
            self.wf(),
            i < self.keys().len(),
        ensures
            r == self.children()[i as int].is_some(),
    {
        self.child_ptr[i].is_some()
    }

    /// The position of the child under `byte`, if there is one.
    pub fn find_child(&self, byte: u8) -> (r: Option<usize>)
        requires
            self.wf(),
        ensures
            r matches Some(i) ==> i < self.keys().len() && self.keys()[i as int] == byte,
            r is None ==> !self.keys().contains(byte),
    {
        let mut i: usize = 0;
        while i < self.key.len()
            invariant
                self.wf(),
                i <= self.keys().len(),
                forall|j: int| 0 <= j < i ==> self.keys()[j] != byte,
            decreases self.keys().len() - i,
        {
            if self.key[i] == byte {
                return Some(i);
            }
            i = i + 1;
        }
        None
    }

    /// All four child slots are taken.
    pub fn is_full(&self) -> (r: bool)
        requires
            self.wf(),
        ensures
            r == (self.keys().len() == NODE4_CAPACITY),
    {
        self.key.len() == NODE4_CAPACITY
    }

    /// Adds `node_to_add` under `byte`, keeping the keys in increasing order.
    pub fn add_child(&mut self, byte: u8, node_to_add: Option<Box<Node4>>)
        requires
            old(self).wf(),
            old(self).keys().len() < NODE4_CAPACITY,
            !old(self).keys().contains(byte),
        ensures
            final(self).wf(),
            final(self).spec_prefix_len() == old(self).spec_prefix_len(),
            ({
                let p = insert_position(old(self).keys(), byte);
                &&& final(self).keys() == old(self).keys().insert(p, byte)
                &&& final(self).children() == old(self).children().insert(p, node_to_add)
            }),
    {
        let ghost keys0 = self.keys();
        let mut i: usize = 0;
        while i < self.key.len() && self.key[i] < byte
            invariant
                self.wf(),
                self.keys() == keys0,
                self.children() == old(self).children(),
                self.spec_prefix_len() == old(self).spec_prefix_len(),
                i <= keys0.len(),
                forall|j: int| 0 <= j < i ==> keys0[j] < byte,
            decreases keys0.len() - i,
        {
            i = i + 1;
        }
        proof {
            assert(i < keys0.len() ==> keys0[i as int] >= byte);
            assert(i < keys0.len() ==> keys0[i as int] != byte);
            lemma_insert_position(keys0, byte, i as int);
        }
        self.key.insert(i, byte);
        self.child_ptr.insert(i, node_to_add);
        proof {
            assert forall|a: int, b: int| 0 <= a < b < self.keys().len() implies self.keys()[a]
                < self.keys()[b] by {
                if b < i {
                } else if a < i && b == i {
                } else if a < i {
                    assert(keys0[a] < keys0[b - 1]);
                } else if a == i {
                    assert(keys0[b - 1] >= keys0[i as int] || b - 1 == i);
                    if b - 1 > i {
                        assert(keys0[i as int] < keys0[b - 1]);
                    }
                } else {
                    assert(keys0[a - 1] < keys0[b - 1]);
                }
            }
        }
    }
}

/// In sorted keys without `byte`, the first key not below `byte` sits at its insert position.
proof fn lemma_insert_position(keys: Seq<u8>, byte: u8, i: int)
    requires
        strictly_sorted(keys),
        0 <= i <= keys.len(),
        forall|j: int| 0 <= j < i ==> keys[j] < byte,
        i < keys.len() ==> keys[i] > byte,
    ensures
        insert_position(keys, byte) == i,
    decreases keys.len(),
{
    let f = |k: u8| k < byte;
    if keys.len() == 0 {
        assert(keys.filter(f) =~= Seq::<u8>::empty());
    } else {
        let last = keys.last();
        let init = keys.drop_last();
        assert(init =~= keys.subrange(0, keys.len() - 1));
        assert(keys =~= init.push(last));
        init.lemma_filter_push(last, f);
        if i == keys.len() {
            lemma_insert_position(init, byte, i - 1);
        } else {
            assert(last > byte) by {
                if i < keys.len() - 1 {
                    assert(keys[i] < keys[keys.len() - 1]);
                }
            }
            lemma_insert_position(init, byte, i);
        }
    }
}

} // verus!
