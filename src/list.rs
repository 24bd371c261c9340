use vstd::prelude::*;
use vstd::rwlock::{RwLock, RwLockPredicate};
use vstd::std_specs::cmp::PartialEqSpec;

verus! {

/// What a slot may hold.
///
/// The head slot of a list (`tail: None`) may hold any chain. Every other slot
/// is the `next` of a node and is fixed at creation to the sequence of values
/// its chain spells (`tail: Some(s)`); it is only ever taken apart whole, by
/// the owner of its node.
pub struct SlotInv<T> {
    pub tail: Option<Seq<T>>,
}

/// A lockable cell holding an optional node: the head of a list, or the `next`
/// of a node.
pub type Slot<T> = RwLock<Option<Node<T>>, SlotInv<T>>;

/// A node of a chain: its value and the slot that follows it, which the node
/// alone owns. `rest` records the values that slot was created to hold.
pub struct Node<T> {
    next: Box<Slot<T>>,
    value: Option<T>,
    rest: Ghost<Seq<T>>,
}

/// The values of a chain, head first.
pub open spec fn chain_view<T>(c: Option<Node<T>>) -> Seq<T> {
    match c {
        None => Seq::empty(),
        Some(n) => seq![n.item()] + n.rest(),
    }
}

/// The values after a push of `v` onto a chain spelling `s`.
pub open spec fn pushed<T>(s: Seq<T>, v: T) -> Seq<T> {
    seq![v] + s
}

/// The values left after the head is taken off a chain spelling `s`.
pub open spec fn popped<T>(s: Seq<T>) -> Seq<T> {
    if s.len() == 0 {
        s
    } else {
        s.drop_first()
    }
}

/// Whether some value of `s` equals `like` by the element type's equality.
pub open spec fn holds_value<T: PartialEq>(s: Seq<T>, like: T) -> bool {
    exists|i: int| 0 <= i < s.len() && #[trigger] s[i].eq_spec(&like)
}

/// `i` is the first position of `s` whose value equals `like`.
pub open spec fn first_match<T: PartialEq>(s: Seq<T>, like: T, i: int) -> bool {
    &&& 0 <= i < s.len()
    &&& s[i].eq_spec(&like)
    &&& forall|j: int| 0 <= j < i ==> !#[trigger] s[j].eq_spec(&like)
}

/// A position as a mathematical integer.
pub open spec fn pos(p: Option<usize>) -> Option<int> {
    match p {
        None => None,
        Some(k) => Some(k as int),
    }
}

/// What a search that ends at position `i` returns: the position before it
/// (none at the head) and `i` itself.
pub open spec fn found_positions(i: int) -> (Option<int>, Option<int>) {
    (if i == 0 { None } else { Some(i - 1) }, Some(i))
}

impl<T> RwLockPredicate<Option<Node<T>>> for SlotInv<T> {
    open spec fn inv(self, c: Option<Node<T>>) -> bool {
        self.tail matches Some(s) ==> chain_view(c) == s
    }
}

impl<T> Node<T> {
    /// The value this node holds.
    pub closed spec fn item(self) -> T {
        self.value.unwrap()
    }

    /// The values that follow this node, as fixed by its `next` slot.
    pub closed spec fn rest(self) -> Seq<T> {
        self.rest@
    }

    #[verifier::type_invariant]
    spec fn wf(self) -> bool {
        &&& self.value is Some
        &&& (*self.next).pred().tail == Some(self.rest@)
    }

    fn value_as_ref(&self) -> (r: Option<&T>)
        ensures
            r matches Some(v) && *v == self.item(),
    {
        proof {
            use_type_invariant(self);
        }
        self.value.as_ref()
    }

    fn get_next(&self) -> (r: &Slot<T>)
        ensures
            r.pred().tail == Some(self.rest()),
    {
        proof {
            use_type_invariant(self);
        }
        &self.next
    }

    fn into_items(self) -> (r: (Box<Slot<T>>, Option<T>))
        ensures
            r.0 == self.next,
            r.1 == self.value,
            (*r.0).pred().tail == Some(self.rest()),
            r.1 == Some(self.item()),
    {
        proof {
            use_type_invariant(&self);
        }
        (self.next, self.value)
    }
}

/// A new slot holding `c`, under the predicate `inv`.
fn new_slot<T>(c: Option<Node<T>>, Ghost(inv): Ghost<SlotInv<T>>) -> (r: Slot<T>)
    requires
        inv.inv(c),
    ensures
        r.pred() == inv,
{
    RwLock::new(c, Ghost(inv))
}

/// Puts `item` in front of the chain `c`; `c` moves into the new node's `next`.
pub fn prepend<T>(c: Option<Node<T>>, item: T) -> (r: Option<Node<T>>)
    ensures
        chain_view(r) == pushed(chain_view(c), item),
{
    let ghost s = chain_view(c);
    let next = Box::new(new_slot(c, Ghost(SlotInv { tail: Some(s) })));
    let node = Node { next, value: Some(item), rest: Ghost(s) };
    Some(node)
}

/// Takes the first node off the chain `c`, returning the chain that follows it
/// and the node's value. The node's `next` slot is owned by the node alone, so
/// its content is reclaimed whole: nobody else can be holding that slot.
pub fn unlink<T>(c: Option<Node<T>>) -> (r: (Option<Node<T>>, Option<T>))
    ensures
        chain_view(r.0) == popped(chain_view(c)),
        c is None ==> r.1 is None,
        c is Some ==> r.1 == Some(chain_view(c)[0]),
{
    match c {
        None => (None, None),
        Some(node) => {
            assert(chain_view(Some(node)).drop_first() =~= node.rest());
            let (next, item) = node.into_items();
            let slot: Slot<T> = *next;
            let succ = slot.into_inner();
            (succ, item)
        },
    }
}

/// Whether some value of the chain `c` equals `like`.
///
/// Walks the chain under shared locks, from head to tail. Every lock on the
/// path stays held until the walk ends, and all are given back before it
/// returns, so the chain does not change under the walk. If the element type's
/// `==` panics, the locks taken so far are never given back and every later
/// writer of those slots waits for good.
pub fn chain_contains<T: Eq>(c: &Option<Node<T>>, like: &T) -> (r: bool)
    ensures
        T::obeys_eq_spec() ==> r == holds_value(chain_view(*c), *like),
    decreases chain_view(*c).len(),
{
    match c {
        None => false,
        Some(node) => {
            let found = match node.value_as_ref() {
                Some(v) => v.eq(like),
                None => false,
            };
            let ghost s = chain_view(*c);
            assert(s[0] == node.item());
            if found {
                return true;
            }
            let held = node.get_next().acquire_read();
            let r = chain_contains(held.borrow(), like);
            proof {
                let t = chain_view(held.view());
                assert(s =~= seq![node.item()] + t);
                if T::obeys_eq_spec() {
                    if r {
                        let i = choose|i: int| 0 <= i < t.len() && #[trigger] t[i].eq_spec(like);
                        assert(s[i + 1] == t[i]);
                    }
                    if holds_value(s, *like) {
                        let i = choose|i: int| 0 <= i < s.len() && #[trigger] s[i].eq_spec(like);
                        assert(t[i - 1] == s[i]);
                    }
                }
            }
            held.release_read();
            r
        },
    }
}

proof fn lemma_first_match_exists<T: PartialEq>(s: Seq<T>, like: T, i: int)
    requires
        0 <= i < s.len(),
        s[i].eq_spec(&like),
    ensures
        exists|k: int| first_match(s, like, k),
    decreases i,
{
    if exists|j: int| 0 <= j < i && #[trigger] s[j].eq_spec(&like) {
        let j = choose|j: int| 0 <= j < i && #[trigger] s[j].eq_spec(&like);
        lemma_first_match_exists(s, like, j);
    } else {
        assert(first_match(s, like, i));
    }
}

/// Searches the chain `c` for `like`, with the same walk as `chain_contains`
/// (all locks on the path held until it ends; a panic in `==` leaves them
/// held).
/// Returns the position of the first node equal to `like` and the position
/// before it (none at the head). Where no node matches, returns the last node
/// and the one before it; on an empty chain, the head slot itself (position 0)
/// and no predecessor.
pub fn chain_find<T: Eq>(c: &Option<Node<T>>, like: &T) -> (r: (Option<usize>, Option<usize>))
    ensures
        r.1 is Some,
        r.0 is None ==> r.1 == Some(0usize),
        r.0 matches Some(k) ==> k < usize::MAX && r.1 == Some((k + 1) as usize),
        ({
            let s = chain_view(*c);
            T::obeys_eq_spec() && s.len() < usize::MAX ==> {
                &&& s.len() == 0 ==> pos(r.0) is None && pos(r.1) == Some(0int)
                &&& forall|i: int| #[trigger] first_match(s, *like, i) ==>
                    (pos(r.0), pos(r.1)) == found_positions(i)
                &&& (s.len() > 0 && !holds_value(s, *like)) ==>
                    (pos(r.0), pos(r.1)) == found_positions(s.len() - 1)
            }
        }),
    decreases chain_view(*c).len(),
{
    match c {
        None => (None, Some(0)),
        Some(node) => {
            let found = match node.value_as_ref() {
                Some(v) => v.eq(like),
                None => false,
            };
            let ghost s = chain_view(*c);
            assert(s[0] == node.item());
            if found {
                return (None, Some(0));
            }
            let held = node.get_next().acquire_read();
            let succ = held.borrow();
            if succ.is_none() {
                held.release_read();
                return (None, Some(0));
            }
            let (p, q) = chain_find(succ, like);
            proof {
                let t = chain_view(held.view());
                assert(s =~= seq![node.item()] + t);
                if T::obeys_eq_spec() && s.len() < usize::MAX {
                    assert forall|i: int| first_match(s, *like, i) implies first_match(t, *like, i - 1) by {
                        assert(i != 0);
                        assert forall|j: int| 0 <= j < i - 1 implies !#[trigger] t[j].eq_spec(like) by {
                            assert(s[j + 1] == t[j]);
                        }
                        assert(s[i] == t[i - 1]);
                    }
                    if !holds_value(s, *like) {
                        assert forall|j: int| 0 <= j < t.len() implies !#[trigger] t[j].eq_spec(like) by {
                            assert(s[j + 1] == t[j]);
                        }
                    }
                    if holds_value(t, *like) {
                        let j = choose|j: int| 0 <= j < t.len() && #[trigger] t[j].eq_spec(like);
                        lemma_first_match_exists(t, *like, j);
                    }
                }
            }
            held.release_read();
            match q {
                Some(k) => if k < usize::MAX {
                    (Some(k), Some(k + 1))
                } else {
                    (p, q)
                },
                None => (p, q),
            }
        },
    }
}

pub struct ConcurrentLinkedList<T> {
    node: Slot<T>,
}

impl<T> ConcurrentLinkedList<T> {
    #[verifier::type_invariant]
    spec fn wf(&self) -> bool {
        self.node.pred().tail is None
    }

    /// Constructs an empty list.
    pub fn new() -> Self {
        ConcurrentLinkedList { node: new_slot(None, Ghost(SlotInv { tail: None })) }
    }

    /// Constructs a list with a single element.
    pub fn new_from(value: T) -> Self {
        let chain = prepend(None, value);
        ConcurrentLinkedList { node: new_slot(chain, Ghost(SlotInv { tail: None })) }
    }

    /// Constructs a list of two elements, `head` first.
    pub fn new_from_two(head: T, tail: T) -> Self {
        let chain = prepend(prepend(None, tail), head);
        ConcurrentLinkedList { node: new_slot(chain, Ghost(SlotInv { tail: None })) }
    }

    /// Removes whichever element is at the head of the list when its lock is
    /// taken (`unlink` on the chain held there), or returns `None` if the list
    /// is empty at that instant. It waits on the head's lock alone: the slot
    /// behind the removed node belongs to that node, so no other thread can
    /// hold it once the head's lock is held.
    pub fn remove_one(&self) -> Option<T> {
        proof {
            use_type_invariant(self);
        }
        let (c, held) = self.node.acquire_write();
        let (rest, item) = unlink(c);
        held.release_write(rest);
        item
    }

    /// Adds `item` at the head of the list (`prepend` on the chain held under
    /// the head's lock).
    pub fn push(&self, item: T) {
        proof {
            use_type_invariant(self);
        }
        let (c, held) = self.node.acquire_write();
        let c = prepend(c, item);
        held.release_write(c);
    }

    /// `chain_find` on the list as it stands when the head's shared lock is
    /// taken: positions from the head of the node equal to `like` and of the
    /// node before it. The head's lock and every lock after it on the path
    /// stay held until the search ends, so a push or removal waits for the
    /// whole search. If the element type's `==` panics, those locks are never
    /// given back and every later push or removal waits for good.
    pub fn find(&self, like: &T) -> (r: (Option<usize>, Option<usize>))
        where
            T: Eq,
        ensures
            r.1 is Some,
            r.0 is None ==> r.1 == Some(0usize),
            r.0 matches Some(k) ==> k < usize::MAX && r.1 == Some((k + 1) as usize),
    {
        let held = self.node.acquire_read();
        let r = chain_find(held.borrow(), like);
        held.release_read();
        r
    }

    /// `chain_contains` on the list as it stands when the head's shared lock
    /// is taken. The head's lock and every lock after it on the path stay
    /// held until the walk ends, so a push or removal waits for the whole
    /// walk. If the element type's `==` panics, those locks are never given
    /// back and every later push or removal waits for good.
    pub fn contains(&self, like: &T) -> bool
        where
            T: Eq,
    {
        let held = self.node.acquire_read();
        let r = chain_contains(held.borrow(), like);
        held.release_read();
        r
    }
}

} // verus!
