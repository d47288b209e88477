use vstd::prelude::*;

verus! {

/// A growable store that hands out dense, zero-based identifiers: the
/// identifier of an item is its position in the store. Items are never
/// removed, so identifiers stay stable for the life of the arena.
pub struct Arena<T> {
    pub(crate) items: Vec<T>,
}

impl<T> View for Arena<T> {
    type V = Seq<T>;

    closed spec fn view(&self) -> Seq<T> {
        self.items@
    }
}

impl<T> Arena<T> {
    pub fn new() -> (a: Arena<T>)
        ensures
            a@ == Seq::<T>::empty(),
    {
        Arena { items: Vec::new() }
    }

    /// Store an item; its identifier is the number of items stored before it.
    pub fn allocate(&mut self, item: T) -> (id: usize)
        ensures
            id == old(self)@.len(),
            final(self)@ == old(self)@.push(item),
    {
        let id = self.items.len();
        self.items.push(item);
        id
    }

    /// Store the item built by `f` from the identifier it is about to receive.
    pub fn alloc_with_id<F: FnOnce(usize) -> T>(&mut self, f: F) -> (id: usize)
        requires
            call_requires(f, (old(self)@.len() as usize,)),
        ensures
            id == old(self)@.len(),
            final(self)@.len() == old(self)@.len() + 1,
            final(self)@ == old(self)@.push(final(self)@[id as int]),
            call_ensures(f, (id,), final(self)@[id as int]),
    {
        let id = self.items.len();
        let item = f(id);
        self.items.push(item);
        id
    }

    /// The identifier that the next stored item will receive.
    pub fn next_id(&self) -> (id: usize)
        ensures
            id == self@.len(),
    {
        self.items.len()
    }

    pub fn len(&self) -> (n: usize)
        ensures
            n == self@.len(),
    {
        self.items.len()
    }

    pub fn is_empty(&self) -> (e: bool)
        ensures
            e <==> self@.len() == 0,
    {
        self.items.is_empty()
    }

    /// Read access to all stored items, in identifier order.
    pub fn iter(&self) -> (items: &Vec<T>)
        ensures
            items@ == self@,
    {
        &self.items
    }

    pub(crate) proof fn view_is_items(&self)
        ensures
            self@ == self.items@,
    {
    }

    /// The item with the given identifier.
    pub fn get(&self, index: usize) -> (item: &T)
        requires
            index < self@.len(),
        ensures
            *item == self@[index as int],
    {
        &self.items[index]
    }
}

impl<T> Default for Arena<T> {
    fn default() -> (a: Self)
        ensures
            a@ == Seq::<T>::empty(),
    {
        Arena::new()
    }
}

} // verus!
