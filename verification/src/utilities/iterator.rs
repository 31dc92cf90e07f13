//! Questions about sequences of items: whether all differ, and what comes
//! before a given run of items.
use vstd::prelude::*;
use vstd::std_specs::cmp::PartialEqSpec;

verus! {

/// Whether no item of `items` equals an item before it.
pub open spec fn all_differ<T: PartialEq>(items: Seq<T>) -> bool {
    forall|i: int, j: int|
        #![trigger items[i], items[j]]
        0 <= i < j < items.len() ==> !items[j].eq_spec(&items[i])
}

/// Collections that can tell whether all their items differ.
pub trait Unique {
    fn all_unique(self) -> bool;
}

impl<'a, T: PartialEq> Unique for &'a [T] {
    /// Whether all items differ. Each item is compared with each item
    /// after it.
    fn all_unique(self) -> (unique: bool)
        ensures
            T::obeys_eq_spec() ==> unique == all_differ(self@),
    {
        let mut i: usize = 0;
        while i < self.len()
            invariant
                i <= self@.len(),
                T::obeys_eq_spec() ==> forall|a: int, b: int|
                    #![trigger self@[a], self@[b]]
                    0 <= a < b < self@.len() && a < i ==> !self@[b].eq_spec(&self@[a]),
            decreases self@.len() - i,
        {
            let mut j: usize = i + 1;
            while j < self.len()
                invariant
                    i < j <= self@.len(),
                    T::obeys_eq_spec() ==> forall|b: int|
                        i < b < j ==> !(#[trigger] self@[b]).eq_spec(&self@[i as int]),
                decreases self@.len() - j,
            {
                if self[j] == self[i] {
                    return false;
                }
                j += 1;
            }
            i += 1;
        }
        true
    }
}

/// How far an `UntilSequenceIterator` has come.
pub struct Progress<T> {
    /// Number of items taken from the input.
    pub position: nat,
    /// Number of items of a broken match that were handed out again.
    pub head: nat,
    /// Number of items of the sequence that the last items taken matched.
    pub tail: nat,
    /// The item that broke the match, until it is handed out.
    pub divergent: Option<T>,
}

/// What handing out one item of a broken match, or of a match that the end
/// of the input cut short, gives and leaves.
pub open spec fn replayed<T>(sequence: Seq<T>, progress: Progress<T>) -> (Option<T>, Progress<T>) {
    if progress.head == progress.tail {
        (progress.divergent, Progress { head: 0, tail: 0, divergent: None, ..progress })
    } else {
        (Some(sequence[progress.head as int]), Progress { head: progress.head + 1, ..progress })
    }
}

/// The next item of the iterator, and how far the iterator has come after
/// it. Once the whole sequence was matched there is no next item. Items of
/// the input that match the sequence so far are held back; when an item
/// breaks the match, the items held back are handed out, and then that item.
/// A match does not start within the items of a broken match.
pub open spec fn stepped<T: PartialEq>(input: Seq<T>, sequence: Seq<T>, progress: Progress<T>) -> (
    Option<T>,
    Progress<T>,
)
    decreases input.len() - progress.position,
{
    if progress.tail == sequence.len() {
        (None, progress)
    } else if progress.divergent is Some {
        replayed(sequence, progress)
    } else if progress.position < input.len() {
        let candidate = input[progress.position as int];
        if candidate.eq_spec(&sequence[progress.tail as int]) {
            stepped(
                input,
                sequence,
                Progress { position: progress.position + 1, tail: progress.tail + 1, ..progress },
            )
        } else {
            stepped(
                input,
                sequence,
                Progress {
                    position: progress.position + 1,
                    divergent: Some(candidate),
                    ..progress
                },
            )
        }
    } else {
        replayed(sequence, progress)
    }
}

/// How far an iterator is from its end at most: each item handed out
/// brings it closer.
pub open spec fn distance<T>(input: Seq<T>, progress: Progress<T>) -> int {
    2 * (input.len() - progress.position) + (progress.tail - progress.head) + if progress.divergent
        is Some {
        1int
    } else {
        0int
    }
}

/// How far an iterator has come after it handed out `items`.
pub open spec fn after<T: PartialEq>(
    input: Seq<T>,
    sequence: Seq<T>,
    progress: Progress<T>,
    items: Seq<T>,
) -> Progress<T>
    decreases items.len(),
{
    if items.len() == 0 {
        progress
    } else {
        stepped(input, sequence, after(input, sequence, progress, items.drop_last())).1
    }
}

/// Whether `items` are the next items of an iterator, in order.
pub open spec fn follow<T: PartialEq>(
    input: Seq<T>,
    sequence: Seq<T>,
    progress: Progress<T>,
    items: Seq<T>,
) -> bool {
    forall|k: int|
        0 <= k < items.len() ==> stepped(
            input,
            sequence,
            after(input, sequence, progress, #[trigger] items.take(k)),
        ).0 == Some(items[k])
}

/// Whether `items` are all the items that an iterator still has.
pub open spec fn exhaust<T: PartialEq>(
    input: Seq<T>,
    sequence: Seq<T>,
    progress: Progress<T>,
    items: Seq<T>,
) -> bool {
    &&& follow(input, sequence, progress, items)
    &&& stepped(input, sequence, after(input, sequence, progress, items)).0 is None
}

/// The items that follow `items` and then `item` are those that follow
/// `items`, and `item` where it is the one after them.
pub proof fn lemma_follow_push<T: PartialEq>(
    input: Seq<T>,
    sequence: Seq<T>,
    progress: Progress<T>,
    items: Seq<T>,
    item: T,
)
    requires
        follow(input, sequence, progress, items),
        stepped(input, sequence, after(input, sequence, progress, items)).0 == Some(item),
    ensures
        follow(input, sequence, progress, items.push(item)),
        after(input, sequence, progress, items.push(item)) == stepped(
            input,
            sequence,
            after(input, sequence, progress, items),
        ).1,
{
    let longer = items.push(item);
    assert(longer.drop_last() =~= items);
    assert forall|k: int| 0 <= k < longer.len() implies stepped(
        input,
        sequence,
        after(input, sequence, progress, #[trigger] longer.take(k)),
    ).0 == Some(longer[k]) by {
        if k < items.len() {
            assert(longer.take(k) =~= items.take(k));
        } else {
            assert(longer.take(k) =~= items);
        }
    }
}

/// Iterates over the items of an input until a sequence is reached, and
/// stops before it.
pub struct UntilSequenceIterator<'a, T> {
    input: &'a [T],
    position: usize,
    sequence: &'a [T],
    head: usize,
    tail: usize,
    divergent: Option<T>,
}

/// Inputs that can be iterated over until a sequence is reached.
pub trait UntilSequence<'a, T> {
    fn until_sequence(self, sequence: &'a [T]) -> UntilSequenceIterator<'a, T>;
}

impl<'a, T: Copy + PartialEq> UntilSequence<'a, T> for &'a [T] {
    fn until_sequence(self, sequence: &'a [T]) -> (iterator: UntilSequenceIterator<'a, T>)
        ensures
            iterator.input() == self@,
            iterator.sequence() == sequence@,
            iterator@ == (Progress::<T> { position: 0, head: 0, tail: 0, divergent: None }),
    {
        UntilSequenceIterator { input: self, position: 0, sequence, head: 0, tail: 0, divergent: None }
    }
}

impl<'a, T> UntilSequenceIterator<'a, T> {
    #[verifier::type_invariant]
    spec fn in_bounds(self) -> bool {
        &&& self.position <= self.input@.len()
        &&& self.head <= self.tail <= self.sequence@.len()
    }
}

impl<'a, T: Copy + PartialEq> View for UntilSequenceIterator<'a, T> {
    type V = Progress<T>;

    closed spec fn view(&self) -> Progress<T> {
        Progress {
            position: self.position as nat,
            head: self.head as nat,
            tail: self.tail as nat,
            divergent: self.divergent,
        }
    }
}

impl<'a, T: Copy + PartialEq> UntilSequenceIterator<'a, T> {
    /// The items that the iterator runs over.
    pub closed spec fn input(&self) -> Seq<T> {
        self.input@
    }

    /// The sequence that the iterator stops before.
    pub closed spec fn sequence(&self) -> Seq<T> {
        self.sequence@
    }

    /// Hands out one item of a broken match, and last the item that broke
    /// it.
    pub fn iterate_on_sequence(&mut self) -> (item: Option<T>)
        ensures
            final(self).input() == old(self).input(),
            final(self).sequence() == old(self).sequence(),
            (item, final(self)@) == replayed(old(self).sequence(), old(self)@),
    {
        proof {
            use_type_invariant(&*self);
        }
        if self.head == self.tail {
            let divergent = self.divergent;
            *self = UntilSequenceIterator {
                input: self.input,
                position: self.position,
                sequence: self.sequence,
                head: 0,
                tail: 0,
                divergent: None,
            };
            divergent
        } else {
            let item = self.sequence[self.head];
            *self = UntilSequenceIterator {
                input: self.input,
                position: self.position,
                sequence: self.sequence,
                head: self.head + 1,
                tail: self.tail,
                divergent: self.divergent,
            };
            Some(item)
        }
    }

    /// The next item, if there is one.
    pub fn next(&mut self) -> (item: Option<T>)
        ensures
            final(self).input() == old(self).input(),
            final(self).sequence() == old(self).sequence(),
            T::obeys_eq_spec() ==> (item, final(self)@) == stepped(
                old(self).input(),
                old(self).sequence(),
                old(self)@,
            ),
            0 <= distance(final(self).input(), final(self)@) <= distance(
                old(self).input(),
                old(self)@,
            ),
            item is Some ==> distance(final(self).input(), final(self)@) < distance(
                old(self).input(),
                old(self)@,
            ),
    {
        proof {
            use_type_invariant(&*self);
        }
        loop
            invariant
                self.input() == old(self).input(),
                self.sequence() == old(self).sequence(),
                0 <= distance(self.input(), self@) <= distance(old(self).input(), old(self)@),
                T::obeys_eq_spec() ==> stepped(self.input(), self.sequence(), self@) == stepped(
                    old(self).input(),
                    old(self).sequence(),
                    old(self)@,
                ),
            decreases self.input().len() - self@.position,
        {
            proof {
                use_type_invariant(&*self);
            }
            if self.tail == self.sequence.len() {
                return None;
            } else if self.divergent.is_some() {
                return self.iterate_on_sequence();
            } else if self.position < self.input.len() {
                let candidate = self.input[self.position];
                if candidate == self.sequence[self.tail] {
                    *self = UntilSequenceIterator {
                        input: self.input,
                        position: self.position + 1,
                        sequence: self.sequence,
                        head: self.head,
                        tail: self.tail + 1,
                        divergent: self.divergent,
                    };
                } else {
                    *self = UntilSequenceIterator {
                        input: self.input,
                        position: self.position + 1,
                        sequence: self.sequence,
                        head: self.head,
                        tail: self.tail,
                        divergent: Some(candidate),
                    };
                }
            } else {
                return self.iterate_on_sequence();
            }
        }
    }

    /// All the items that are left, in order.
    pub fn collect(&mut self) -> (items: Vec<T>)
        ensures
            final(self).input() == old(self).input(),
            final(self).sequence() == old(self).sequence(),
            T::obeys_eq_spec() ==> {
                &&& exhaust(old(self).input(), old(self).sequence(), old(self)@, items@)
                &&& final(self)@ == stepped(
                    old(self).input(),
                    old(self).sequence(),
                    after(old(self).input(), old(self).sequence(), old(self)@, items@),
                ).1
            },
    {
        let mut items: Vec<T> = Vec::new();
        loop
            invariant
                self.input() == old(self).input(),
                self.sequence() == old(self).sequence(),
                T::obeys_eq_spec() ==> {
                    &&& follow(old(self).input(), old(self).sequence(), old(self)@, items@)
                    &&& self@ == after(old(self).input(), old(self).sequence(), old(self)@, items@)
                },
            decreases distance(self.input(), self@),
        {
            match self.next() {
                Some(item) => {
                    proof {
                        if T::obeys_eq_spec() {
                            lemma_follow_push(
                                old(self).input(),
                                old(self).sequence(),
                                old(self)@,
                                items@,
                                item,
                            );
                        }
                    }
                    items.push(item);
                },
                None => {
                    return items;
                },
            }
        }
    }

    /// Whether the input holds the sequence, as far as the iterator can
    /// tell: whether it stops for the sequence and not for the end of the
    /// input.
    pub fn contains_sequence(self) -> (found: bool)
        ensures
            T::obeys_eq_spec() ==> exists|items: Seq<T>|
                {
                    &&& #[trigger] exhaust(self.input(), self.sequence(), self@, items)
                    &&& found == (stepped(
                        self.input(),
                        self.sequence(),
                        after(self.input(), self.sequence(), self@, items),
                    ).1.tail == self.sequence().len())
                },
    {
        let mut iterator = self;
        let _ = iterator.collect();
        iterator.tail == iterator.sequence.len()
    }
}

} // verus!
