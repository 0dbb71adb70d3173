use vstd::prelude::*;

use core::fmt::Display;
use vstd::std_specs::cmp::PartialEqSpec;
use vstd::string::to_string_from_display_ensures;

verus! {

/// One link of the chain: a value and exclusive ownership of the rest.
struct SinglyLinkedListNode<T> where T: Display + Copy + PartialEq {
    data: T,
    next: Option<Box<SinglyLinkedListNode<T>>>,
}

/// The values reachable from `link`, in chain order.
spec fn chain<T>(link: Option<Box<SinglyLinkedListNode<T>>>) -> Seq<T>
    where T: Display + Copy + PartialEq
    decreases link,
{
    match link {
        None => Seq::empty(),
        Some(node) => seq![node.data] + chain(node.next),
    }
}

/// Moving one node down a chain whose values are the tail of `items` from `i`.
proof fn lemma_step<T>(node: SinglyLinkedListNode<T>, items: Seq<T>, i: int)
    where T: Display + Copy + PartialEq
    requires
        node.next is Some,
        0 <= i < items.len(),
        node.items() == items.subrange(i, items.len() as int),
    ensures
        node.data == items[i],
        chain(node.next) == node.next.unwrap().items(),
        node.next.unwrap().items() == items.subrange(i + 1, items.len() as int),
        i + 1 < items.len(),
{
    let rest = node.next.unwrap();
    assert(chain(node.next) == rest.items());
    assert(node.items()[0] == node.data);
    assert(node.items()[0] == items.subrange(i, items.len() as int)[0]);
    assert(rest.items() =~= node.items().subrange(1, node.items().len() as int));
    assert(rest.items() =~= items.subrange(i + 1, items.len() as int));
}

/// The first value and the rest of a chain whose values are the tail of `items` from `i`.
proof fn lemma_take<T>(node: SinglyLinkedListNode<T>, items: Seq<T>, i: int)
    where T: Display + Copy + PartialEq
    requires
        0 <= i < items.len(),
        node.items() == items.subrange(i, items.len() as int),
    ensures
        node.data == items[i],
        chain(node.next) == items.subrange(i + 1, items.len() as int),
{
    assert(node.items()[0] == node.data);
    assert(node.items()[0] == items.subrange(i, items.len() as int)[0]);
    assert(chain(node.next) =~= node.items().subrange(1, node.items().len() as int));
}

impl<T> SinglyLinkedListNode<T> where T: Display + Copy + PartialEq {
    /// The values held from this node to the end of its chain.
    closed spec fn items(self) -> Seq<T> {
        seq![self.data] + chain(self.next)
    }

    fn new(data: T) -> (r: Self)
        ensures
            r.data == data,
            r.next is None,
    {
        SinglyLinkedListNode { data, next: None }
    }

    fn equals(&self, other: &SinglyLinkedListNode<T>) -> (r: bool)
        ensures
            T::obeys_eq_spec() ==> r == self.data.eq_spec(&other.data),
    {
        self.data == other.data
    }

    fn set_next(&mut self, next: Option<Box<SinglyLinkedListNode<T>>>)
        ensures
            final(self).data == old(self).data,
            final(self).next == next,
    {
        self.next = next;
    }
}

/// Two sequences of equal length whose values are pairwise equal by `==`.
pub open spec fn same_values<T>(a: Seq<T>, b: Seq<T>) -> bool where T: Display + Copy + PartialEq {
    &&& a.len() == b.len()
    &&& forall|k: int| 0 <= k < a.len() ==> #[trigger] a[k].eq_spec(&b[k])
}

/// Each of `texts` is what `to_string` may give for the value at the same position.
pub open spec fn displays<T>(values: Seq<T>, texts: Seq<String>) -> bool where
    T: Display + Copy + PartialEq,
 {
    &&& texts.len() == values.len()
    &&& forall|k: int|
        0 <= k < texts.len() ==> to_string_from_display_ensures::<T>(&values[k], #[trigger] texts[k])
}

/// The text of a non-empty list whose values render as `texts`:
/// `(head)` followed by ` v ->` for each value, in order.
pub open spec fn rendered(texts: Seq<String>) -> Seq<char>
    decreases texts.len(),
{
    if texts.len() == 0 {
        "(head)"@
    } else {
        rendered(texts.drop_last()) + " "@ + texts.last()@ + " ->"@
    }
}

/// A sequence of values held in a chain of owned nodes, with its length.
pub struct SinglyLinkedList<T> where T: Display + Copy + PartialEq {
    head: Option<Box<SinglyLinkedListNode<T>>>,
    count: u32,
}

impl<T> View for SinglyLinkedList<T> where T: Display + Copy + PartialEq {
    type V = Seq<T>;

    closed spec fn view(&self) -> Seq<T> {
        chain(self.head)
    }
}

impl<T> SinglyLinkedList<T> where T: Display + Copy + PartialEq {
    /// The stored count equals the number of nodes reachable from the head.
    pub closed spec fn well_formed(&self) -> bool {
        self.count as int == chain(self.head).len()
    }

    /// An empty list.
    pub fn new() -> (r: Self)
        ensures
            r.well_formed(),
            r@ == Seq::<T>::empty(),
    {
        SinglyLinkedList { head: None, count: 0 }
    }

    /// Number of values in the list.
    pub fn count(&self) -> (r: u32)
        requires
            self.well_formed(),
        ensures
            r as int == self@.len(),
    {
        self.count
    }

    /// Puts `data` before the first value.
    pub fn add_front(&mut self, data: T)
        requires
            old(self).well_formed(),
            old(self)@.len() < u32::MAX,
        ensures
            final(self).well_formed(),
            final(self)@ == seq![data] + old(self)@,
    {
        let mut new_node = SinglyLinkedListNode::new(data);
        new_node.set_next(self.head.take());
        let new_node_ptr = Box::new(new_node);
        self.head = Some(new_node_ptr);
        self.count = self.count + 1;
    }

    /// Puts `data` after the last value, walking the chain to its end.
    pub fn add_back(&mut self, data: T)
        requires
            old(self).well_formed(),
            old(self)@.len() < u32::MAX,
        ensures
            final(self).well_formed(),
            final(self)@ == old(self)@.push(data),
    {
        let ghost items = old(self)@;
        let new_node = Box::new(SinglyLinkedListNode::new(data));
        let mut head = self.head.take();
        if head.is_none() {
            head = Some(new_node);
            assert(chain(head) =~= items.push(data));
        } else {
            let mut current = head.as_mut().unwrap();
            let ghost mut i: int = 0;
            while current.next.is_some()
                invariant
                    0 <= i < items.len(),
                    current.items() == items.subrange(i, items.len() as int),
                    chain(after_borrow(head)) == items.subrange(0, i) + final(current).items(),
                decreases items.len() - i,
            {
                let ghost data_here = current.data;
                let ghost final_here = *final(current);
                proof {
                    lemma_step(**current, items, i);
                }
                current = current.next.as_mut().unwrap();
                proof {
                    assert(final_here.next == Some(*final(current)));
                    assert(chain(final_here.next) == final(current).items());
                    assert(items.subrange(0, i + 1) =~= items.subrange(0, i).push(data_here));
                    i = i + 1;
                }
            }
            current.set_next(Some(new_node));
        }
        self.head = head;
        self.count = self.count + 1;
    }

    /// Drops the first value; an empty list stays as it is.
    pub fn remove_front(&mut self)
        requires
            old(self).well_formed(),
        ensures
            final(self).well_formed(),
            old(self)@.len() == 0 ==> final(self)@ == old(self)@,
            old(self)@.len() > 0 ==> final(self)@ == old(self)@.subrange(1, old(self)@.len() as int),
    {
        if let Some(mut old_head) = self.head.take() {
            proof {
                assert(old(self)@ == old_head.items());
                assert(chain(old_head.next) =~= old(self)@.subrange(1, old(self)@.len() as int));
            }
            self.head = old_head.next.take();
            self.count = self.count - 1;
        }
    }

    /// Takes out the first value, or gives `None` on an empty list.
    pub fn pop_front(&mut self) -> (r: Option<T>)
        requires
            old(self).well_formed(),
        ensures
            final(self).well_formed(),
            old(self)@.len() == 0 ==> r is None && final(self)@ == old(self)@,
            old(self)@.len() > 0 ==> r == Some(old(self)@[0]) && final(self)@ == old(self)@.subrange(
                1,
                old(self)@.len() as int,
            ),
    {
        match self.head.take() {
            Some(mut old_head) => {
                proof {
                    assert(old(self)@ == old_head.items());
                    assert(old_head.items()[0] == old_head.data);
                    assert(chain(old_head.next) =~= old(self)@.subrange(1, old(self)@.len() as int));
                }
                self.head = old_head.next.take();
                self.count = self.count - 1;
                Some(old_head.data)
            },
            None => None,
        }
    }

    /// Inserts `data` so that it stands at position `index` (0 is the front).
    /// An `index` past the end is ignored.
    pub fn add_at(&mut self, data: T, index: u32)
        requires
            old(self).well_formed(),
            index <= old(self)@.len() ==> old(self)@.len() < u32::MAX,
        ensures
            final(self).well_formed(),
            index <= old(self)@.len() ==> final(self)@ == old(self)@.insert(index as int, data),
            index > old(self)@.len() ==> final(self)@ == old(self)@,
    {
        if index > self.count {
            return;
        }
        if index == 0 {
            self.add_front(data);
            proof {
                assert(final(self)@ =~= old(self)@.insert(0, data));
            }
            return;
        }
        if index == self.count {
            self.add_back(data);
            proof {
                assert(final(self)@ =~= old(self)@.insert(index as int, data));
            }
            return;
        }
        let ghost items = self@;
        let mut head = self.head.take();
        let mut current_index: u32 = 0;
        let mut current_node = head.as_mut().unwrap();
        while current_index < index - 1
            invariant
                0 <= current_index < index < items.len(),
                current_node.items() == items.subrange(current_index as int, items.len() as int),
                chain(after_borrow(head)) == items.subrange(0, current_index as int)
                    + final(current_node).items(),
            decreases index - current_index,
        {
            let ghost data_here = current_node.data;
            let ghost final_here = *final(current_node);
            proof {
                lemma_step(**current_node, items, current_index as int);
            }
            current_node = current_node.next.as_mut().unwrap();
            proof {
                assert(final_here.next == Some(*final(current_node)));
                assert(chain(final_here.next) == final(current_node).items());
                assert(items.subrange(0, current_index + 1) =~= items.subrange(
                    0,
                    current_index as int,
                ).push(data_here));
            }
            current_index = current_index + 1;
        }
        proof {
            lemma_step(**current_node, items, current_index as int);
        }
        let ghost before = current_node.data;
        let mut new_node = Box::new(SinglyLinkedListNode::new(data));
        new_node.set_next(current_node.next.take());
        current_node.set_next(Some(new_node));
        proof {
            assert(current_node.items() =~= seq![before, data] + items.subrange(
                index as int,
                items.len() as int,
            ));
            assert(items.subrange(0, current_index as int) + current_node.items() =~= items.insert(
                index as int,
                data,
            ));
        }
        self.head = head;
        self.count = self.count + 1;
    }

    /// Drops the last value; an empty list stays as it is.
    pub fn remove_back(&mut self)
        requires
            old(self).well_formed(),
        ensures
            final(self).well_formed(),
            old(self)@.len() == 0 ==> final(self)@ == old(self)@,
            old(self)@.len() > 0 ==> final(self)@ == old(self)@.drop_last(),
    {
        let _ = self.pop_back();
    }

    /// Takes out the last value, or gives `None` on an empty list.
    pub fn pop_back(&mut self) -> (r: Option<T>)
        requires
            old(self).well_formed(),
        ensures
            final(self).well_formed(),
            old(self)@.len() == 0 ==> r is None && final(self)@ == old(self)@,
            old(self)@.len() > 0 ==> r == Some(old(self)@.last()) && final(self)@ == old(
                self,
            )@.drop_last(),
    {
        if self.head.is_none() {
            return None;
        }
        let ghost items = self@;
        proof {
            assert(items == self.head.unwrap().items());
            assert(items.subrange(0, items.len() as int) =~= items);
        }
        if self.head.as_ref().unwrap().next.is_none() {
            let last = self.head.take().unwrap();
            proof {
                assert(last.items() =~= seq![last.data]);
                assert(items.drop_last() =~= Seq::<T>::empty());
            }
            self.count = self.count - 1;
            return Some(last.data);
        }
        let mut head = self.head.take();
        let mut current = head.as_mut().unwrap();
        let ghost mut i: int = 0;
        proof {
            lemma_step(**current, items, i);
        }
        while current.next.as_ref().unwrap().next.is_some()
            invariant
                0 <= i < items.len() - 1,
                current.next is Some,
                current.items() == items.subrange(i, items.len() as int),
                chain(after_borrow(head)) == items.subrange(0, i) + final(current).items(),
            decreases items.len() - i,
        {
            let ghost data_here = current.data;
            let ghost final_here = *final(current);
            proof {
                lemma_step(**current, items, i);
            }
            current = current.next.as_mut().unwrap();
            proof {
                assert(final_here.next == Some(*final(current)));
                assert(chain(final_here.next) == final(current).items());
                assert(items.subrange(0, i + 1) =~= items.subrange(0, i).push(data_here));
                i = i + 1;
                lemma_step(**current, items, i);
            }
        }
        proof {
            lemma_step(**current, items, i);
            let rest = current.next.unwrap();
            assert(rest.items() =~= seq![rest.data]);
            assert(i + 2 == items.len());
            assert(rest.items()[0] == items.subrange(i + 1, items.len() as int)[0]);
            assert(rest.data == items.last());
        }
        let last = current.next.take().unwrap();
        proof {
            assert(current.items() =~= seq![current.data]);
            assert(items.subrange(0, i) + current.items() =~= items.drop_last());
            assert(last.data == items.last());
        }
        self.head = head;
        self.count = self.count - 1;
        Some(last.data)
    }

    /// Drops the value at position `index`; an `index` past the last value is ignored.
    pub fn remove_at(&mut self, index: u32)
        requires
            old(self).well_formed(),
        ensures
            final(self).well_formed(),
            index < old(self)@.len() ==> final(self)@ == old(self)@.remove(index as int),
            index >= old(self)@.len() ==> final(self)@ == old(self)@,
    {
        if index >= self.count {
            return;
        }
        if index == 0 {
            self.remove_front();
            proof {
                assert(final(self)@ =~= old(self)@.remove(0));
            }
            return;
        }
        if index == self.count - 1 {
            self.remove_back();
            proof {
                assert(final(self)@ =~= old(self)@.remove(index as int));
            }
            return;
        }
        let ghost items = self@;
        let mut head = self.head.take();
        let mut current_index: u32 = 0;
        let mut current_node = head.as_mut().unwrap();
        while current_index < index - 1
            invariant
                0 <= current_index < index < items.len() - 1,
                current_node.items() == items.subrange(current_index as int, items.len() as int),
                chain(after_borrow(head)) == items.subrange(0, current_index as int)
                    + final(current_node).items(),
            decreases index - current_index,
        {
            let ghost data_here = current_node.data;
            let ghost final_here = *final(current_node);
            proof {
                lemma_step(**current_node, items, current_index as int);
            }
            current_node = current_node.next.as_mut().unwrap();
            proof {
                assert(final_here.next == Some(*final(current_node)));
                assert(chain(final_here.next) == final(current_node).items());
                assert(items.subrange(0, current_index + 1) =~= items.subrange(
                    0,
                    current_index as int,
                ).push(data_here));
            }
            current_index = current_index + 1;
        }
        proof {
            lemma_step(**current_node, items, current_index as int);
            lemma_step(*current_node.next.unwrap(), items, current_index + 1);
        }
        let ghost before = current_node.data;
        let mut removed_node = current_node.next.take().unwrap();
        current_node.set_next(removed_node.next.take());
        proof {
            assert(current_node.items() =~= seq![before] + items.subrange(
                index + 1,
                items.len() as int,
            ));
            assert(items.subrange(0, current_index as int) + current_node.items() =~= items.remove(
                index as int,
            ));
        }
        self.head = head;
        self.count = self.count - 1;
    }

    /// A copy of the first value, if any.
    pub fn peek_front(&self) -> (r: Option<T>)
        requires
            self.well_formed(),
        ensures
            self@.len() == 0 ==> r is None,
            self@.len() > 0 ==> r == Some(self@[0]),
    {
        if let Some(value) = &self.head {
            proof {
                assert(self@ == value.items());
                assert(value.items()[0] == value.data);
            }
            Some(value.data)
        } else {
            None
        }
    }

    /// A copy of the last value, if any.
    pub fn peek_back(&self) -> (r: Option<T>)
        requires
            self.well_formed(),
        ensures
            self@.len() == 0 ==> r is None,
            self@.len() > 0 ==> r == Some(self@.last()),
    {
        let ghost items = self@;
        let mut current = &self.head;
        let ghost mut i: int = 0;
        proof {
            assert(items.subrange(0, items.len() as int) =~= items);
        }
        while current.is_some()
            invariant
                items == self@,
                0 <= i <= items.len(),
                chain(*current) == items.subrange(i, items.len() as int),
                i > 0 ==> current is Some,
            decreases items.len() - i,
        {
            let node = current.as_ref().unwrap();
            proof {
                assert(chain(*current) == node.items());
            }
            if node.next.is_none() {
                proof {
                    assert(node.items() =~= seq![node.data]);
                    lemma_take(**node, items, i);
                    assert(i == items.len() - 1);
                }
                return Some(node.data);
            }
            proof {
                lemma_step(**node, items, i);
                i = i + 1;
            }
            current = &node.next;
        }
        None
    }

    /// Whether both lists hold the same number of values, pairwise equal by `==`.
    pub fn equals(&self, other: &SinglyLinkedList<T>) -> (r: bool)
        requires
            self.well_formed(),
            other.well_formed(),
        ensures
            self@.len() != other@.len() ==> !r,
            T::obeys_eq_spec() ==> r == same_values(self@, other@),
    {
        if self.count != other.count {
            return false;
        }
        let ghost a = self@;
        let ghost b = other@;
        let mut self_node = &self.head;
        let mut other_node = &other.head;
        let ghost mut i: int = 0;
        proof {
            assert(a.subrange(0, a.len() as int) =~= a);
            assert(b.subrange(0, b.len() as int) =~= b);
        }
        while self_node.is_some() && other_node.is_some()
            invariant
                a == self@,
                b == other@,
                0 <= i <= a.len(),
                a.len() == b.len(),
                chain(*self_node) == a.subrange(i, a.len() as int),
                chain(*other_node) == b.subrange(i, b.len() as int),
                T::obeys_eq_spec() ==> forall|k: int| 0 <= k < i ==> #[trigger] a[k].eq_spec(&b[k]),
            decreases a.len() - i,
        {
            let self_next = self_node.as_ref().unwrap();
            let other_next = other_node.as_ref().unwrap();
            proof {
                assert(chain(*self_node) == self_next.items());
                assert(chain(*other_node) == other_next.items());
                assert(self_next.items().len() > 0);
                lemma_take(**self_next, a, i);
                lemma_take(**other_next, b, i);
            }
            if !self_next.equals(other_next) {
                proof {
                    if T::obeys_eq_spec() {
                        assert(!a[i].eq_spec(&b[i]));
                    }
                }
                return false;
            }
            proof {
                i = i + 1;
            }
            self_node = &self_next.next;
            other_node = &other_next.next;
        }
        self_node.is_none() && other_node.is_none()
    }

    /// `Empty` for an empty list, otherwise `(head)` and ` v ->` for each value.
    pub fn to_string(&self) -> (r: String)
        requires
            self.well_formed(),
        ensures
            self@.len() == 0 ==> r@ == "Empty"@,
            self@.len() > 0 ==> exists|texts: Seq<String>|
                displays(self@, texts) && r@ == rendered(texts),
    {
        if self.count == 0 {
            return String::from_str("Empty");
        }
        let ghost items = self@;
        let mut result_str = String::from_str("(head)");
        let mut current = &self.head;
        let ghost mut texts: Seq<String> = Seq::empty();
        proof {
            assert(items.subrange(0, items.len() as int) =~= items);
        }
        while current.is_some()
            invariant
                texts.len() <= items.len(),
                chain(*current) == items.subrange(texts.len() as int, items.len() as int),
                displays(items.subrange(0, texts.len() as int), texts),
                result_str@ == rendered(texts),
            decreases items.len() - texts.len(),
        {
            let node = current.as_ref().unwrap();
            proof {
                assert(chain(*current) == node.items());
                lemma_take(**node, items, texts.len() as int);
            }
            let text = node.data.to_string();
            result_str.append(" ");
            result_str.append(text.as_str());
            result_str.append(" ->");
            proof {
                let next_texts = texts.push(text);
                assert(next_texts.drop_last() =~= texts);
                let done = items.subrange(0, texts.len() as int);
                assert(items.subrange(0, texts.len() + 1 as int) =~= done.push(node.data));
                texts = next_texts;
            }
            current = &node.next;
        }
        proof {
            assert(items.subrange(0, texts.len() as int) =~= items);
        }
        result_str
    }
}

/// Adding `x` at the front makes `x` the first value and the list one value longer.
pub proof fn lemma_add_front_then_peek_front<T>(values: Seq<T>, x: T) where
    T: Display + Copy + PartialEq,

    ensures
        (seq![x] + values)[0] == x,
        (seq![x] + values).len() == values.len() + 1,
{
}

/// Adding `x` at the back makes `x` the last value and the list one value longer.
pub proof fn lemma_add_back_then_peek_back<T>(values: Seq<T>, x: T) where
    T: Display + Copy + PartialEq,

    ensures
        values.push(x).last() == x,
        values.push(x).len() == values.len() + 1,
{
}

/// Popping the front right after adding `x` there gives back `x` and the list as it was.
pub proof fn lemma_add_front_then_pop_front<T>(values: Seq<T>, x: T) where
    T: Display + Copy + PartialEq,

    ensures
        (seq![x] + values).len() > 0,
        (seq![x] + values)[0] == x,
        (seq![x] + values).subrange(1, (seq![x] + values).len() as int) == values,
{
    assert((seq![x] + values).subrange(1, (seq![x] + values).len() as int) =~= values);
}

/// After inserting `v` at any position `i` from 0 through the length, the value at `i` is `v`,
/// and the values before and after it keep their order.
pub proof fn lemma_add_at_then_read<T>(values: Seq<T>, v: T, i: int) where
    T: Display + Copy + PartialEq,

    requires
        0 <= i <= values.len(),
    ensures
        values.insert(i, v).len() == values.len() + 1,
        values.insert(i, v)[i] == v,
        values.insert(i, v).subrange(0, i) == values.subrange(0, i),
        values.insert(i, v).subrange(i + 1, values.len() + 1 as int) == values.subrange(
            i,
            values.len() as int,
        ),
{
    assert(values.insert(i, v).subrange(0, i) =~= values.subrange(0, i));
    assert(values.insert(i, v).subrange(i + 1, values.len() + 1 as int) =~= values.subrange(
        i,
        values.len() as int,
    ));
}

/// Two lists that hold the same values in the same order, however they were built, are
/// `equals` when the element type's `==` is equality.
pub proof fn lemma_same_order_equals<T>(a: &SinglyLinkedList<T>, b: &SinglyLinkedList<T>) where
    T: Display + Copy + PartialEq,

    requires
        vstd::laws_eq::obeys_concrete_eq::<T>(),
        a@ == b@,
    ensures
        T::obeys_eq_spec(),
        same_values(a@, b@),
{
    reveal(vstd::laws_eq::obeys_concrete_eq);
}

} // verus!
