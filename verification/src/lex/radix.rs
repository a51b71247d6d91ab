//! A prefix tree from strings to payloads, read through a cursor that
//! moves down one character at a time.

use vstd::prelude::*;

verus! {

/// The entries of `table` whose keys begin with `prefix`, with that prefix
/// taken off their keys.
pub open spec fn suffixes<T>(table: Map<Seq<char>, T>, prefix: Seq<char>) -> Map<Seq<char>, T> {
    Map::new(
        |rest: Seq<char>| table.contains_key(prefix + rest),
        |rest: Seq<char>| table[prefix + rest],
    )
}

/// Does some key of `table` begin with `prefix`?
pub open spec fn begins_key<T>(table: Map<Seq<char>, T>, prefix: Seq<char>) -> bool {
    exists|rest: Seq<char>| table.contains_key(#[trigger] (prefix + rest))
}

/// What `table` holds under the empty key.
pub open spec fn at_root<T>(table: Map<Seq<char>, T>) -> Option<T> {
    if table.contains_key(Seq::empty()) {
        Some(table[Seq::empty()])
    } else {
        None
    }
}

/// Taking `ch` off the keys that are left after `prefix` is taking
/// `prefix` followed by `ch` off the keys of the table.
pub proof fn lemma_suffixes_step<T>(table: Map<Seq<char>, T>, prefix: Seq<char>, ch: char)
    ensures
        begins_key(suffixes(table, prefix), seq![ch]) == begins_key(table, prefix.push(ch)),
        suffixes(suffixes(table, prefix), seq![ch]) == suffixes(table, prefix.push(ch)),
{
    let inner = suffixes(table, prefix);
    assert forall|rest: Seq<char>|
        prefix + (seq![ch] + rest) == #[trigger] (prefix.push(ch) + rest) by {
        assert(prefix + (seq![ch] + rest) =~= prefix.push(ch) + rest);
    }
    if begins_key(inner, seq![ch]) {
        let rest = choose|rest: Seq<char>| inner.contains_key(#[trigger] (seq![ch] + rest));
        assert(table.contains_key(prefix.push(ch) + rest));
    }
    if begins_key(table, prefix.push(ch)) {
        let rest = choose|rest: Seq<char>| table.contains_key(#[trigger] (prefix.push(ch) + rest));
        assert(inner.contains_key(seq![ch] + rest));
    }
    assert(suffixes(inner, seq![ch]) =~= suffixes(table, prefix.push(ch)));
}

/// A prefix tree from strings to payloads. A node stands for the string
/// spelled on the way down to it and holds a payload exactly if that string
/// was inserted.
pub struct Node<T: Copy> {
    ch: char,
    continuations: Vec<Node<T>>,
    payload: Option<T>,
}

impl<T: Copy> Node<T> {
    /// Is the `i`-th continuation the one for `ch`?
    spec fn continues(&self, i: int, ch: char) -> bool {
        0 <= i < self.continuations@.len() && self.continuations@[i].ch == ch
    }

    /// The continuation for `ch`, if there is one.
    spec fn child(&self, ch: char) -> Option<Node<T>> {
        if exists|i: int| self.continues(i, ch) {
            Some(self.continuations@[choose|i: int| self.continues(i, ch)])
        } else {
            None
        }
    }

    /// The payload found by spelling `key` downward from this node.
    pub closed spec fn get(&self, key: Seq<char>) -> Option<T>
        decreases key.len(),
    {
        if key.len() == 0 {
            self.payload
        } else {
            match self.child(key[0]) {
                Some(child) => child.get(key.drop_first()),
                None => None,
            }
        }
    }

    /// Some key leads from this node to a payload.
    spec fn populated(&self) -> bool {
        exists|key: Seq<char>| (#[trigger] self.get(key)) is Some
    }

    /// No two continuations are for the same character, and every node
    /// below this one leads to a payload.
    pub closed spec fn wf(&self) -> bool
        decreases self,
    {
        &&& forall|i: int, j: int|
            0 <= i < j < self.continuations@.len() ==> self.continuations@[i].ch
                != self.continuations@[j].ch
        &&& forall|i: int|
            0 <= i < self.continuations@.len() ==> (#[trigger] self.continuations@[i]).wf()
                && self.continuations@[i].populated()
    }

    /// Where a continuation for `ch` stands, it is the one that `child`
    /// speaks of.
    proof fn lemma_child(&self, i: int, ch: char)
        requires
            self.wf(),
            self.continues(i, ch),
        ensures
            self.child(ch) == Some(self.continuations@[i]),
    {
        let j = choose|j: int| self.continues(j, ch);
        assert(i == j);
    }

    /// A node that differs from this one in the continuation for `ch` alone
    /// finds under `ch` what its continuation finds, and elsewhere what this
    /// node finds.
    proof fn lemma_graft(&self, next: Node<T>, at: int, ch: char)
        requires
            self.wf(),
            next.payload == self.payload,
            next.continues(at, ch),
            next.continuations@[at].wf(),
            next.continuations@[at].populated(),
            forall|j: int| self.continues(j, ch) ==> j == at,
            at < self.continuations@.len() ==> self.continues(at, ch),
            next.continuations@.len() == self.continuations@.len() || (at
                == self.continuations@.len() && next.continuations@.len() == at + 1),
            forall|j: int|
                0 <= j < self.continuations@.len() && j != at ==> #[trigger] next.continuations@[j]
                    == self.continuations@[j],
        ensures
            next.wf(),
            forall|key: Seq<char>|
                key.len() > 0 && key[0] == ch ==> #[trigger] next.get(key)
                    == next.continuations@[at].get(key.drop_first()),
            forall|key: Seq<char>|
                !(key.len() > 0 && key[0] == ch) ==> #[trigger] next.get(key) == self.get(key),
    {
        assert forall|j: int| 0 <= j < next.continuations@.len() && j != at implies self.continues(
            j,
            next.continuations@[j].ch,
        ) by {
            assert(next.continuations@[j] == self.continuations@[j]);
        }
        assert(next.wf()) by {
            assert forall|i: int, j: int|
                0 <= i < j < next.continuations@.len() implies next.continuations@[i].ch
                != next.continuations@[j].ch by {
                if i != at {
                    assert(self.continues(i, next.continuations@[i].ch));
                }
                if j != at {
                    assert(self.continues(j, next.continuations@[j].ch));
                }
            }
            assert forall|i: int| 0 <= i < next.continuations@.len() implies (
            #[trigger] next.continuations@[i]).wf() && next.continuations@[i].populated() by {
                if i != at {
                    assert(next.continuations@[i] == self.continuations@[i]);
                    assert(self.continuations@[i].wf());
                }
            }
        }
        next.lemma_child(at, ch);
        assert forall|key: Seq<char>| !(key.len() > 0 && key[0] == ch) implies #[trigger] next.get(
            key,
        ) == self.get(key) by {
            if key.len() > 0 {
                let c = key[0];
                if exists|j: int| self.continues(j, c) {
                    let j = choose|j: int| self.continues(j, c);
                    assert(next.continuations@[j] == self.continuations@[j]);
                    assert(next.continues(j, c));
                    self.lemma_child(j, c);
                    next.lemma_child(j, c);
                } else {
                    assert forall|j: int| !next.continues(j, c) by {
                        if next.continues(j, c) {
                            assert(self.continues(j, c));
                        }
                    }
                }
            }
        }
    }

    /// A tree that holds nothing, to stand under `ch`.
    fn from_char(ch: char) -> (node: Self)
        ensures
            node.wf(),
            node.ch == ch,
            forall|key: Seq<char>| (#[trigger] node.get(key)) is None,
    {
        let node = Node { ch, continuations: Vec::new(), payload: None };
        proof {
            assert forall|key: Seq<char>| (#[trigger] node.get(key)) is None by {
                reveal_with_fuel(Node::get, 2);
            }
        }
        node
    }

    /// Registers `value` under `key`, in the place of what the key held
    /// before.
    pub fn insert(&mut self, key: &str, value: T)
        requires
            old(self).wf(),
        ensures
            final(self).wf(),
            final(self)@ == old(self)@.insert(key@, value),
    {
        let mut chars: Vec<char> = Vec::new();
        for c in it: key.chars()
            invariant
                it.seq() == key@,
                chars@ == key@.take(it.index() as int),
        {
            chars.push(c);
        }
        assert(chars@ =~= key@);
        self.insert_from(&chars, 0, value);
        assert(chars@.skip(0) =~= key@);
        assert(self@ =~= old(self)@.insert(key@, value));
    }

    /// Registers `value` under the part of `key` that starts at `from`.
    fn insert_from(&mut self, key: &Vec<char>, from: usize, value: T)
        requires
            old(self).wf(),
            from <= key@.len(),
        ensures
            final(self).wf(),
            final(self).ch == old(self).ch,
            forall|rest: Seq<char>| #[trigger]
                final(self).get(rest) == if rest == key@.skip(from as int) {
                    Some(value)
                } else {
                    old(self).get(rest)
                },
        decreases key@.len() - from,
    {
        if from == key.len() {
            self.payload = Some(value);
            proof {
                assert(key@.skip(from as int) =~= Seq::<char>::empty());
                assert forall|rest: Seq<char>| #[trigger]
                    self.get(rest) == if rest == key@.skip(from as int) {
                        Some(value)
                    } else {
                        old(self).get(rest)
                    } by {
                    if rest.len() > 0 {
                        let c = rest[0];
                        assert forall|j: int|
                            self.continues(j, c) == old(self).continues(j, c) by {}
                        if exists|j: int| self.continues(j, c) {
                            let j = choose|j: int| self.continues(j, c);
                            self.lemma_child(j, c);
                            old(self).lemma_child(j, c);
                        }
                    } else {
                        assert(rest =~= Seq::<char>::empty());
                    }
                }
            }
            return ;
        }
        let ch = key[from];
        let ghost tail = key@.skip(from + 1);
        let mut i: usize = 0;
        while i < self.continuations.len()
            invariant
                *self == *old(self),
                self.wf(),
                from < key@.len() <= usize::MAX,
                ch == key@[from as int],
                tail == key@.skip(from + 1),
                forall|j: int| 0 <= j < i ==> !self.continues(j, ch),
            decreases self.continuations.len() - i,
        {
            if self.continuations[i].ch == ch {
                self.continuations[i].insert_from(key, from + 1, value);
                proof {
                    let at = i as int;
                    assert(self.continuations@[at].get(tail) is Some);
                    old(self).lemma_graft(*self, at, ch);
                    old(self).lemma_child(at, ch);
                    Self::lemma_split(key@, from as int);
                }
                return ;
            }
            i += 1;
        }
        let mut node = Node::from_char(ch);
        node.insert_from(key, from + 1, value);
        self.continuations.push(node);
        proof {
            let at = old(self).continuations@.len() as int;
            assert(self.continuations@[at].get(tail) is Some);
            old(self).lemma_graft(*self, at, ch);
            assert(old(self).child(ch) is None);
            Self::lemma_split(key@, from as int);
        }
    }

    /// A key is its first character followed by the rest, and no other
    /// sequence has both that first character and that rest.
    proof fn lemma_split(key: Seq<char>, from: int)
        requires
            0 <= from < key.len(),
        ensures
            forall|other: Seq<char>|
                other == key.skip(from) <==> other.len() > 0 && other[0] == key[from]
                    && #[trigger] other.drop_first() == key.skip(from + 1),
    {
        assert forall|other: Seq<char>|
            other == key.skip(from) <==> other.len() > 0 && other[0] == key[from]
                && #[trigger] other.drop_first() == key.skip(from + 1) by {
            assert(key.skip(from).drop_first() =~= key.skip(from + 1));
            if other.len() > 0 && other[0] == key[from] && other.drop_first() == key.skip(
                from + 1,
            ) {
                assert(other =~= key.skip(from)) by {
                    assert forall|i: int| 0 <= i < other.len() implies other[i] == key.skip(
                        from,
                    )[i] by {
                        if i > 0 {
                            assert(other.drop_first()[i - 1] == other[i]);
                        }
                    }
                }
            }
        }
    }

    /// An empty tree.
    pub fn new() -> (node: Self)
        ensures
            node.wf(),
            node@ == Map::<Seq<char>, T>::empty(),
    {
        let node = Node { ch: '\0', continuations: Vec::new(), payload: None };
        proof {
            assert forall|key: Seq<char>| node.get(key) is None by {
                reveal_with_fuel(Node::get, 2);
            }
            assert(node@ =~= Map::<Seq<char>, T>::empty());
        }
        node
    }

    /// A reading position at the root of the tree.
    pub fn cursor(&self) -> (cursor: Cursor<'_, T>)
        requires
            self.wf(),
        ensures
            cursor@ == self@,
    {
        Cursor::new(self)
    }
}

impl<T: Copy> View for Node<T> {
    type V = Map<Seq<char>, T>;

    closed spec fn view(&self) -> Map<Seq<char>, T> {
        Map::new(|key: Seq<char>| self.get(key) is Some, |key: Seq<char>| self.get(key)->0)
    }
}

/// A reading position in a prefix tree. It stands for the part of the tree
/// below the characters visited so far.
pub struct Cursor<'a, T: 'a + Copy> {
    node: &'a Node<T>,
}

impl<'a, T: Copy> View for Cursor<'a, T> {
    type V = Map<Seq<char>, T>;

    closed spec fn view(&self) -> Map<Seq<char>, T> {
        self.node@
    }
}

impl<'a, T: Copy> Cursor<'a, T> {
    #[verifier::type_invariant]
    spec fn inv(&self) -> bool {
        self.node.wf()
    }

    /// A reading position at the root of `node`.
    pub fn new(node: &'a Node<T>) -> (cursor: Cursor<'a, T>)
        requires
            node.wf(),
        ensures
            cursor@ == node@,
    {
        Self { node }
    }

    /// Moves forward by one character, if some key goes on with `ch`, and
    /// says whether it moved. Otherwise the position stays where it is.
    pub fn visit(&mut self, ch: char) -> (moved: bool)
        ensures
            moved == begins_key(old(self)@, seq![ch]),
            moved ==> final(self)@ == suffixes(old(self)@, seq![ch]),
            !moved ==> final(self)@ == old(self)@,
    {
        proof {
            use_type_invariant(&*self);
        }
        let node = self.node;
        let mut i: usize = 0;
        while i < node.continuations.len()
            invariant
                node.wf(),
                node == self.node,
                *self == *old(self),
                forall|j: int| 0 <= j < i ==> !node.continues(j, ch),
            decreases node.continuations.len() - i,
        {
            if node.continuations[i].ch == ch {
                let next = &node.continuations[i];
                proof {
                    node.lemma_child(i as int, ch);
                    assert forall|rest: Seq<char>| #[trigger]
                        next.get(rest) == node.get(seq![ch] + rest) by {
                        assert((seq![ch] + rest).drop_first() =~= rest);
                    }
                    assert(next@ =~= suffixes(node@, seq![ch]));
                    let key = choose|key: Seq<char>| (#[trigger] next.get(key)) is Some;
                    assert(node@.contains_key(seq![ch] + key));
                }
                self.node = next;
                return true;
            }
            i += 1;
        }
        proof {
            assert(node.child(ch) is None);
            assert forall|rest: Seq<char>| !node@.contains_key(#[trigger] (seq![ch] + rest)) by {
                assert((seq![ch] + rest)[0] == ch);
            }
        }
        false
    }

    /// The payload at the current position, if the characters visited so
    /// far spell a key.
    pub fn payload(&self) -> (payload: Option<T>)
        ensures
            payload == at_root(self@),
    {
        proof {
            assert(self.node.get(Seq::empty()) == self.node.payload);
        }
        match self.node.payload {
            None => None,
            Some(t) => Some(t),
        }
    }
}

} // verus!
