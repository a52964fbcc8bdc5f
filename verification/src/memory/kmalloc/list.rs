//! A list of blocks of memory that is threaded through the blocks
//! themselves: each block begins with the address of the block after it and
//! that of the block before it.

use vstd::prelude::*;
use crate::memory::phys::PhysMem;

verus! {

/// What a block on a list begins with: the blocks after and before it.
#[derive(Clone, Copy, Debug, PartialEq, Eq, Structural)]
pub struct Node {
    pub next: Option<u64>,
    pub prev: Option<u64>,
}

/// A list of blocks, by their addresses.
pub struct BareList {
    head: Option<u64>,
    nodes: Ghost<Seq<u64>>,
}

/// The word that stands for a link: the address, or zero for none.
pub open spec fn spec_link(link: Option<u64>) -> u64 {
    match link {
        Some(addr) => addr,
        None => 0,
    }
}

/// The word after the start of the `i`-th block of `nodes`: the address of
/// the block after it, or zero in the last.
pub open spec fn next_of(nodes: Seq<u64>, i: int) -> u64 {
    if i + 1 < nodes.len() {
        nodes[i + 1]
    } else {
        0
    }
}

/// The second word of the `i`-th block of `nodes`: the address of the block
/// before it, or zero in the first.
pub open spec fn prev_of(nodes: Seq<u64>, i: int) -> u64 {
    if 0 < i {
        nodes[i - 1]
    } else {
        0
    }
}

/// A block can begin at `addr`: the address is not zero, and the two words
/// of the links lie in `mem`, apart from those of any other block.
pub open spec fn fits(mem: &PhysMem, addr: u64) -> bool {
    &&& addr != 0
    &&& addr % 16 == 0
    &&& mem.holds(addr)
    &&& mem.holds((addr + 8) as u64)
}

/// The blocks of `nodes` lie in `mem` as a list: they are distinct, and each
/// holds the addresses of its neighbours.
pub open spec fn linked(mem: &PhysMem, nodes: Seq<u64>) -> bool {
    &&& nodes.no_duplicates()
    &&& forall|i: int| 0 <= i < nodes.len() ==> fits(mem, #[trigger] nodes[i])
    &&& forall|i: int| 0 <= i < nodes.len() ==> mem.at(nodes[i]) == #[trigger] next_of(nodes, i)
    &&& forall|i: int|
        0 <= i < nodes.len() ==> mem.at((nodes[i] + 8) as u64) == #[trigger] prev_of(nodes, i)
}

/// Whether `a` is the address of a link that changes when the `k`-th block of
/// `nodes` leaves the list: the link to the next block in the block before
/// it, or the link to the block before in the block after it.
pub open spec fn relinked(nodes: Seq<u64>, k: int, a: u64) -> bool {
    (0 < k && a == nodes[k - 1]) || (k + 1 < nodes.len() && a == nodes[k + 1] + 8)
}

/// The links of distinct blocks are distinct words.
pub proof fn lemma_apart(a: u64, b: u64)
    requires
        a % 16 == 0,
        b % 16 == 0,
        a != b,
    ensures
        a != b + 8,
        a + 8 != b,
        a + 8 != b + 8,
{
}

/// A list stays a list when a block that was on no list is linked in front
/// of it.
#[verifier::rlimit(30)]
pub proof fn lemma_pushed(m0: &PhysMem, mem: &PhysMem, before: Seq<u64>, node: u64)
    requires
        m0.wf(),
        mem.wf(),
        mem.same_range(m0),
        linked(m0, before),
        fits(m0, node),
        !before.contains(node),
        mem.at(node) == next_of(seq![node] + before, 0),
        mem.at((node + 8) as u64) == 0,
        before.len() > 0 ==> mem.at((before[0] + 8) as u64) == node,
        forall|a: u64|
            m0.holds(a) && a != node && a != node + 8 && !(before.len() > 0 && a == before[0] + 8)
                ==> #[trigger] mem.at(a) == m0.at(a),
    ensures
        linked(mem, seq![node] + before),
{
    let after = seq![node] + before;
    assert forall|i: int| 0 < i < after.len() implies after[i] == before[i - 1] && before.contains(
        before[i - 1],
    ) && fits(m0, before[i - 1]) && before[i - 1] != node by {}
    assert forall|i: int| 0 <= i < after.len() implies fits(mem, #[trigger] after[i]) by {
        if i > 0 {
            assert(after[i] == before[i - 1]);
        }
    }
    assert(after.no_duplicates()) by {
        assert forall|i: int, j: int|
            0 <= i < after.len() && 0 <= j < after.len() && i != j implies after[i] != after[j] by {
            if i > 0 {
                assert(after[i] == before[i - 1]);
            }
            if j > 0 {
                assert(after[j] == before[j - 1]);
            }
        }
    }
    assert forall|i: int| 0 <= i < after.len() implies mem.at(after[i]) == #[trigger] next_of(
        after,
        i,
    ) by {
        if i > 0 {
            let b = before[i - 1];
            assert(after[i] == b);
            assert(m0.at(b) == next_of(before, i - 1));
            if i + 1 < after.len() {
                assert(after[i + 1] == before[i]);
            }
            lemma_apart(b, node);
            if b != before[0] {
                lemma_apart(b, before[0]);
            }
            assert(mem.at(b) == m0.at(b));
        }
    }
    assert forall|i: int| 0 <= i < after.len() implies mem.at((after[i] + 8) as u64)
        == #[trigger] prev_of(after, i) by {
        if i > 1 {
            let b = before[i - 1];
            assert(after[i] == b);
            assert(after[i - 1] == before[i - 2]);
            assert(m0.at((b + 8) as u64) == prev_of(before, i - 1));
            assert(b != before[0]);
            lemma_apart(b, node);
            lemma_apart(b, before[0]);
            assert(mem.at((b + 8) as u64) == m0.at((b + 8) as u64));
        } else if i == 1 {
            assert(after[1] == before[0]);
            assert(after[0] == node);
        }
    }
}

/// A list stays a list when its first block leaves it and the second is
/// told that none is before it.
#[verifier::rlimit(30)]
pub proof fn lemma_popped(m0: &PhysMem, mem: &PhysMem, before: Seq<u64>)
    requires
        m0.wf(),
        mem.wf(),
        mem.same_range(m0),
        linked(m0, before),
        before.len() > 0,
        before.len() > 1 ==> mem.at((before[1] + 8) as u64) == 0,
        forall|a: u64|
            m0.holds(a) && !(before.len() > 1 && a == before[1] + 8) ==> #[trigger] mem.at(a)
                == m0.at(a),
    ensures
        linked(mem, before.skip(1)),
{
    let after = before.skip(1);
    assert forall|i: int| 0 <= i < after.len() implies after[i] == before[i + 1] && fits(
        m0,
        before[i + 1],
    ) by {}
    assert forall|i: int| 0 <= i < after.len() implies fits(mem, #[trigger] after[i]) by {
        assert(after[i] == before[i + 1]);
    }
    assert(after.no_duplicates()) by {
        assert forall|i: int, j: int|
            0 <= i < after.len() && 0 <= j < after.len() && i != j implies after[i] != after[j] by {
            assert(after[i] == before[i + 1]);
            assert(after[j] == before[j + 1]);
        }
    }
    assert forall|i: int| 0 <= i < after.len() implies mem.at(after[i]) == #[trigger] next_of(
        after,
        i,
    ) by {
        let b = before[i + 1];
        assert(after[i] == b);
        assert(m0.at(b) == next_of(before, i + 1));
        if b != before[1] {
            lemma_apart(b, before[1]);
        }
        assert(b != before[1] + 8);
        if i + 1 < after.len() {
            assert(after[i + 1] == before[i + 2]);
        }
    }
    assert forall|i: int| 0 <= i < after.len() implies mem.at((after[i] + 8) as u64)
        == #[trigger] prev_of(after, i) by {
        let b = before[i + 1];
        assert(after[i] == b);
        assert(m0.at((b + 8) as u64) == prev_of(before, i + 1));
        if i > 0 {
            assert(after[i - 1] == before[i]);
            assert(b != before[1]);
            lemma_apart(b, before[1]);
        }
    }
}

/// A list stays a list when a block leaves it and its neighbours are linked
/// to each other.
#[verifier::rlimit(30)]
pub proof fn lemma_unlinked(m0: &PhysMem, mem: &PhysMem, before: Seq<u64>, k: int)
    requires
        m0.wf(),
        mem.wf(),
        mem.same_range(m0),
        linked(m0, before),
        0 <= k < before.len(),
        forall|a: u64| m0.holds(a) && !relinked(before, k, a) ==> #[trigger] mem.at(a) == m0.at(a),
        0 < k ==> mem.at(before[k - 1]) == next_of(before, k),
        k + 1 < before.len() ==> mem.at((before[k + 1] + 8) as u64) == prev_of(before, k),
    ensures
        linked(mem, before.remove(k)),
{
    let after = before.remove(k);
    assert forall|i: int| 0 <= i < after.len() implies fits(mem, #[trigger] after[i]) by {
        if i < k {
            assert(fits(m0, before[i]));
        } else {
            assert(fits(m0, before[i + 1]));
        }
    }
    assert(after.no_duplicates()) by {
        assert forall|i: int, j: int|
            0 <= i < after.len() && 0 <= j < after.len() && i != j implies after[i] != after[j] by {
            let bi = if i < k {
                i
            } else {
                i + 1
            };
            let bj = if j < k {
                j
            } else {
                j + 1
            };
            assert(before[bi] != before[bj]);
        }
    }
    assert forall|i: int| 0 <= i < after.len() implies mem.at(after[i]) == #[trigger] next_of(
        after,
        i,
    ) by {
        let bi = if i < k {
            i
        } else {
            i + 1
        };
        let b = before[bi];
        assert(fits(m0, b));
        assert(m0.at(b) == next_of(before, bi));
        if k + 1 < before.len() {
            assert(fits(m0, before[k + 1]));
            if b != before[k + 1] {
                lemma_apart(b, before[k + 1]);
            }
            assert(b != before[k + 1] + 8);
        }
        if i != k - 1 {
            if k > 0 {
                assert(b != before[k - 1]);
            }
            assert(!relinked(before, k, b));
        }
    }
    assert forall|i: int| 0 <= i < after.len() implies mem.at((after[i] + 8) as u64)
        == #[trigger] prev_of(after, i) by {
        let bi = if i < k {
            i
        } else {
            i + 1
        };
        let b = before[bi];
        assert(fits(m0, b));
        assert(m0.at((b + 8) as u64) == prev_of(before, bi));
        if k > 0 {
            assert(fits(m0, before[k - 1]));
            if b != before[k - 1] {
                lemma_apart(b, before[k - 1]);
            }
            assert(b + 8 != before[k - 1]);
        }
        if i != k {
            if k + 1 < before.len() {
                assert(b != before[k + 1]);
                lemma_apart(b, before[k + 1]);
            }
            assert(!relinked(before, k, (b + 8) as u64));
        }
    }
}

impl Node {
    /// A block that is on no list.
    pub fn new() -> (node: Node)
        ensures
            node == (Node { next: None, prev: None }),
    {
        Self { next: None, prev: None }
    }

    /// The block at the address `addr`.
    pub fn from_addr(addr: u64) -> (node: u64)
        requires
            addr != 0,
        ensures
            node == addr,
    {
        addr
    }

    /// The word that stands for a link.
    fn word(link: Option<u64>) -> (word: u64)
        ensures
            word == spec_link(link),
    {
        match link {
            Some(addr) => addr,
            None => 0,
        }
    }

    /// The link that a word stands for.
    fn link(word: u64) -> (link: Option<u64>)
        ensures
            link == if word == 0 {
                None
            } else {
                Some(word)
            },
    {
        if word == 0 {
            None
        } else {
            Some(word)
        }
    }

    /// The links of the block at `addr`.
    pub fn load(mem: &PhysMem, addr: u64) -> (node: Node)
        requires
            mem.wf(),
            fits(mem, addr),
        ensures
            spec_link(node.next) == mem.at(addr),
            spec_link(node.prev) == mem.at((addr + 8) as u64),
            node.next != Some(0u64),
            node.prev != Some(0u64),
    {
        Node { next: Self::link(mem.read(addr)), prev: Self::link(mem.read(addr + 8)) }
    }

    /// Stores the links in the block at `addr`.
    pub fn store(&self, mem: &mut PhysMem, addr: u64)
        requires
            old(mem).wf(),
            fits(old(mem), addr),
        ensures
            final(mem).wf(),
            final(mem).same_range(old(mem)),
            final(mem).at(addr) == spec_link(self.next),
            final(mem).at((addr + 8) as u64) == spec_link(self.prev),
            forall|a: u64|
                old(mem).holds(a) && a != addr && a != addr + 8 ==> #[trigger] final(mem).at(a)
                    == old(mem).at(a),
    {
        let ghost m0 = *mem;
        mem.write(addr, Self::word(self.next));
        let ghost m1 = *mem;
        mem.write(addr + 8, Self::word(self.prev));
        proof {
            m1.lemma_slots(addr, (addr + 8) as u64);
            assert forall|a: u64|
                m0.holds(a) && a != addr && a != addr + 8 implies #[trigger] mem.at(a) == m0.at(
                a,
            ) by {
                m0.lemma_slots(a, addr);
                m1.lemma_slots(a, (addr + 8) as u64);
                assert(m1.at(a) == m0.at(a));
            }
        }
    }
}

impl View for BareList {
    type V = Seq<u64>;

    /// The blocks on the list, the head first.
    closed spec fn view(&self) -> Seq<u64> {
        self.nodes@
    }
}

impl BareList {
    /// The head of the list, as the list keeps it.
    pub closed spec fn spec_head(&self) -> Option<u64> {
        self.head
    }

    /// The list lies in `mem`: its blocks are distinct, and each holds the
    /// addresses of its neighbours.
    pub open spec fn wf(&self, mem: &PhysMem) -> bool {
        &&& mem.wf()
        &&& self.spec_head() == if self@.len() == 0 {
            None
        } else {
            Some(self@[0])
        }
        &&& linked(mem, self@)
    }

    /// A list without blocks.
    pub fn new() -> (list: BareList)
        ensures
            list@ == Seq::<u64>::empty(),
            list.spec_head() is None,
    {
        Self { head: None, nodes: Ghost(Seq::empty()) }
    }

    pub fn is_empty(&self) -> (empty: bool)
        ensures
            empty == self.spec_head() is None,
    {
        self.head.is_none()
    }

    /// The first block of the list.
    pub fn head(&self) -> (head: Option<u64>)
        ensures
            head == self.spec_head(),
    {
        self.head
    }

    /// Puts the block at `node` in front of the list. The block comes with
    /// no block before it, and with none after it where the list is empty.
    #[verifier::rlimit(30)]
    pub fn push(&mut self, mem: &mut PhysMem, node: u64)
        requires
            old(self).wf(old(mem)),
            fits(old(mem), node),
            !old(self)@.contains(node),
            old(mem).at((node + 8) as u64) == 0,
            old(self)@.len() == 0 ==> old(mem).at(node) == 0,
        ensures
            final(self).wf(final(mem)),
            final(mem).same_range(old(mem)),
            final(self)@ == seq![node] + old(self)@,
            forall|a: u64|
                old(mem).holds(a) && a != node && !(old(self)@.len() > 0 && a == old(self)@[0] + 8)
                    ==> #[trigger] final(mem).at(a) == old(mem).at(a),
    {
        let ghost m0 = *mem;
        let ghost before = self@;
        let ghost after = seq![node] + before;
        if let Some(head) = self.head {
            assert(head == before[0]);
            mem.write(node, head);
            let ghost m1 = *mem;
            mem.write(head + 8, node);
            proof {
                assert(fits(&m0, head));
                assert(before.contains(head));
                lemma_apart(node, head);
                assert forall|a: u64| m0.holds(a) && a != node && a != head + 8 implies #[trigger] mem.at(
                    a,
                ) == m0.at(a) by {
                    m0.lemma_slots(a, node);
                    m1.lemma_slots(a, (head + 8) as u64);
                    assert(m1.at(a) == m0.at(a));
                }
                m1.lemma_slots(node, (head + 8) as u64);
                m1.lemma_slots((node + 8) as u64, (head + 8) as u64);
                m0.lemma_slots((node + 8) as u64, node);
                assert(mem.at(node) == head);
                assert(mem.at((node + 8) as u64) == 0);
            }
        }
        self.head = Some(node);
        self.nodes = Ghost(after);
        proof {
            assert(after[0] == node);
            if before.len() > 0 {
                assert(after[1] == before[0]);
            }
            lemma_pushed(&m0, mem, before, node);
        }
    }

    /// Takes the first block off the list.
    #[verifier::rlimit(30)]
    pub fn pop(&mut self, mem: &mut PhysMem) -> (node: Option<u64>)
        requires
            old(self).wf(old(mem)),
        ensures
            final(self).wf(final(mem)),
            final(mem).same_range(old(mem)),
            old(self)@.len() == 0 ==> node is None && final(self)@ == old(self)@ && *final(mem)
                == *old(mem),
            old(self)@.len() > 0 ==> node == Some(old(self)@[0]) && final(self)@ == old(self)@.skip(
                1,
            ),
            forall|a: u64|
                old(mem).holds(a) && !(old(self)@.len() > 1 && a == old(self)@[1] + 8)
                    ==> #[trigger] final(mem).at(a) == old(mem).at(a),
    {
        if let Some(head) = self.head {
            let ghost m0 = *mem;
            let ghost before = self@;
            let ghost after = before.skip(1);
            assert(head == before[0]);
            assert(m0.at(head) == next_of(before, 0));
            assert(m0.at((head + 8) as u64) == prev_of(before, 0));
            let links = Node::load(mem, head);
            if let Some(next) = links.next {
                assert(next == before[1]);
                mem.write(next + 8, Node::word(links.prev));
                proof {
                    assert forall|a: u64| m0.holds(a) && a != next + 8 implies #[trigger] mem.at(a)
                        == m0.at(a) by {
                        m0.lemma_slots(a, (next + 8) as u64);
                    }
                }
            }
            self.head = links.next;
            self.nodes = Ghost(after);
            proof {
                if before.len() > 1 {
                    assert(fits(&m0, before[1]));
                    assert(after[0] == before[1]);
                }
                lemma_popped(&m0, mem, before);
            }
            return Some(head);
        }
        None
    }

    /// Whether the block at `addr` is on the list.
    pub fn contains(&self, mem: &PhysMem, addr: u64) -> (found: bool)
        requires
            self.wf(mem),
        ensures
            found == self@.contains(addr),
    {
        let mut head = self.head;
        let ghost k: int = 0;
        while head.is_some()
            invariant
                self.wf(mem),
                0 <= k <= self@.len(),
                head == if k < self@.len() {
                    Some(self@[k])
                } else {
                    None::<u64>
                },
                forall|j: int| 0 <= j < k ==> self@[j] != addr,
            decreases self@.len() - k,
        {
            let node = head.unwrap();
            if node == addr {
                return true;
            }
            assert(mem.at(node) == next_of(self@, k));
            assert(k + 1 < self@.len() ==> self@[k + 1] != 0) by {
                if k + 1 < self@.len() {
                    assert(fits(mem, self@[k + 1]));
                }
            }
            head = Node::load(mem, node).next;
            proof {
                k = k + 1;
            }
        }
        false
    }

    /// Takes the block at `node`, the `k`-th of the list, off the list: the
    /// block before it is linked to the block after it, and the other way
    /// round.
    #[verifier::rlimit(30)]
    fn unlink(&mut self, mem: &mut PhysMem, node: u64, Ghost(k): Ghost<int>)
        requires
            old(self).wf(old(mem)),
            0 <= k < old(self)@.len(),
            node == old(self)@[k],
        ensures
            final(self).wf(final(mem)),
            final(mem).same_range(old(mem)),
            final(self)@ == old(self)@.remove(k),
            forall|a: u64|
                old(mem).holds(a) && !relinked(old(self)@, k, a) ==> #[trigger] final(mem).at(a)
                    == old(mem).at(a),
    {
        let ghost m0 = *mem;
        let ghost before = self@;
        let ghost after = before.remove(k);
        assert(m0.at(node) == next_of(before, k));
        assert(m0.at((node + 8) as u64) == prev_of(before, k));
        proof {
            if k + 1 < before.len() {
                assert(fits(&m0, before[k + 1]));
            }
            if k > 0 {
                assert(fits(&m0, before[k - 1]));
            }
        }
        let links = Node::load(mem, node);
        if links.prev.is_none() && links.next.is_none() {
            self.head = None;
        }
        if let Some(prev) = links.prev {
            mem.write(prev, Node::word(links.next));
        } else {
            self.head = links.next;
        }
        let ghost m1 = *mem;
        if let Some(next) = links.next {
            mem.write(next + 8, Node::word(links.prev));
        }
        self.nodes = Ghost(after);
        proof {
            assert forall|a: u64| m0.holds(a) && !relinked(before, k, a) implies #[trigger] mem.at(
                a,
            ) == m0.at(a) by {
                if k > 0 {
                    m0.lemma_slots(a, before[k - 1]);
                }
                if k + 1 < before.len() {
                    m1.lemma_slots(a, (before[k + 1] + 8) as u64);
                }
                assert(m1.at(a) == m0.at(a));
            }
            if k > 0 && k + 1 < before.len() {
                m1.lemma_slots(before[k - 1], (before[k + 1] + 8) as u64);
                assert(before[k - 1] % 16 == 0 && before[k + 1] % 16 == 0);
            }
            lemma_unlinked(&m0, mem, before, k);
        }
    }

    /// Takes the block at `addr` off the list, where it is on it, and says
    /// whether it was.
    #[verifier::rlimit(30)]
    pub fn remove(&mut self, mem: &mut PhysMem, addr: u64) -> (found: bool)
        requires
            old(self).wf(old(mem)),
        ensures
            final(self).wf(final(mem)),
            final(mem).same_range(old(mem)),
            found == old(self)@.contains(addr),
            !found ==> final(self)@ == old(self)@ && *final(mem) == *old(mem),
            found ==> final(self)@ == old(self)@.remove(old(self)@.index_of(addr)),
            found ==> forall|a: u64|
                old(mem).holds(a) && !relinked(old(self)@, old(self)@.index_of(addr), a)
                    ==> #[trigger] final(mem).at(a) == old(mem).at(a),
    {
        let mut head = self.head;
        let ghost k: int = 0;
        while head.is_some()
            invariant
                self.wf(mem),
                *mem == *old(mem),
                self@ == old(self)@,
                self.spec_head() == old(self).spec_head(),
                0 <= k <= self@.len(),
                head == if k < self@.len() {
                    Some(self@[k])
                } else {
                    None::<u64>
                },
                forall|j: int| 0 <= j < k ==> self@[j] != addr,
            decreases self@.len() - k,
        {
            let node = head.unwrap();
            if node == addr {
                proof {
                    let found = old(self)@.index_of(addr);
                    assert(old(self)@.contains(addr));
                    assert(old(self)@[found] == addr);
                    assert(found == k);
                }
                self.unlink(mem, node, Ghost(k));
                return true;
            }
            assert(mem.at(node) == next_of(self@, k));
            assert(k + 1 < self@.len() ==> self@[k + 1] != 0) by {
                if k + 1 < self@.len() {
                    assert(fits(mem, self@[k + 1]));
                }
            }
            head = Node::load(mem, node).next;
            proof {
                k = k + 1;
            }
        }
        false
    }
}

} // verus!
