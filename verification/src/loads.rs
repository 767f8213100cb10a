use vstd::prelude::*;

verus! {

/// Length and capacity bookkeeping of one of the interpreter's growable
/// arrays: `loads_length` slots are in use out of `loads_size` allocated.
/// The storage itself is owned by whoever allocates the slots.
#[derive(Debug)]
pub struct LoadS {
    pub loads_length: i32,
    pub loads_size: i32,
}

/// Refusal of `LoadS::grow`: the array is already at its limit.
#[derive(Debug, PartialEq, Eq, Structural)]
pub enum GrowError {
    TooMany { limit: i32 },
}

/// The capacity that `grow` moves to when `new_length` slots must fit in an
/// array of capacity `size` bounded by `limit`; `None` when the limit was
/// already reached.
pub open spec fn grown_size(size: int, new_length: int, limit: int) -> Option<int> {
    if new_length + 1 <= size {
        Some(size)
    } else if size >= limit / 2 {
        if size >= limit { None } else { Some(limit) }
    } else if size * 2 < 4 {
        Some(4)
    } else {
        Some(size * 2)
    }
}

impl LoadS {
    /// An empty array with no slots allocated.
    pub fn new() -> (r: LoadS)
        ensures
            r.loads_length == 0,
            r.loads_size == 0,
    {
        LoadS { loads_length: 0, loads_size: 0 }
    }

    /// Marks `length` more slots as used.
    pub fn add_length(&mut self, length: usize)
        requires
            i32::MIN <= old(self).loads_length + (length as i32) <= i32::MAX,
        ensures
            final(self).loads_length == old(self).loads_length + (length as i32),
            final(self).loads_size == old(self).loads_size,
    {
        self.loads_length = self.loads_length + (length as i32);
    }

    /// Marks `length` slots as no longer used.
    pub fn subtract_length(&mut self, length: usize)
        requires
            i32::MIN <= old(self).loads_length - (length as i32) <= i32::MAX,
        ensures
            final(self).loads_length == old(self).loads_length - (length as i32),
            final(self).loads_size == old(self).loads_size,
    {
        self.loads_length = self.loads_length - (length as i32);
    }

    /// Sets the number of used slots.
    pub fn set_length(&mut self, length: usize)
        ensures
            final(self).loads_length == length as i32,
            final(self).loads_size == old(self).loads_size,
    {
        self.loads_length = length as i32;
    }

    /// Marks every slot as unused.
    pub fn zero_length(&mut self)
        ensures
            final(self).loads_length == 0,
            final(self).loads_size == old(self).loads_size,
    {
        self.loads_length = 0;
    }

    /// Forgets the storage: no slot used, none allocated.
    pub fn initialize(&mut self)
        ensures
            final(self).loads_length == 0,
            final(self).loads_size == 0,
    {
        self.loads_length = 0;
        self.loads_size = 0;
    }

    /// Reallocates to `new_size` slots, none of them used.
    pub fn shrink(&mut self, new_size: usize)
        ensures
            final(self).loads_length == 0,
            final(self).loads_size == new_size as i32,
    {
        self.loads_length = 0;
        self.loads_size = new_size as i32;
    }

    /// Allocates `size` slots for a fresh array.
    pub fn initialize_size(&mut self, size: usize)
        ensures
            final(self).loads_length == old(self).loads_length,
            final(self).loads_size == size as i32,
    {
        self.loads_size = size as i32;
    }

    /// Frees the storage: no slot allocated.
    pub fn destroy(&mut self)
        ensures
            final(self).loads_length == old(self).loads_length,
            final(self).loads_size == 0,
    {
        self.loads_size = 0;
    }

    /// Reallocates to `new_size` slots, keeping the used count.
    pub fn resize(&mut self, new_size: usize)
        ensures
            final(self).loads_length == old(self).loads_length,
            final(self).loads_size == new_size as i32,
    {
        self.loads_size = new_size as i32;
    }

    /// The number of used slots.
    pub fn get_length(&self) -> (r: i32)
        ensures
            r == self.loads_length,
    {
        self.loads_length
    }

    /// The number of allocated slots.
    pub fn get_size(&self) -> (r: i32)
        ensures
            r == self.loads_size,
    {
        self.loads_size
    }

    /// Makes room for `new_length + 1` slots: keeps the capacity when it
    /// suffices, else doubles it (at least 4), but never beyond `limit`;
    /// refuses when the capacity has already reached `limit`.
    pub fn grow(&mut self, new_length: usize, limit: i32) -> (r: Result<(), GrowError>)
        requires
            old(self).loads_size >= 0,
            new_length < usize::MAX,
        ensures
            final(self).loads_length == old(self).loads_length,
            match grown_size(old(self).loads_size as int, new_length as int, limit as int) {
                Some(s) => r is Ok && final(self).loads_size == s,
                None => r == Err::<(), GrowError>(GrowError::TooMany { limit })
                    && final(self).loads_size == old(self).loads_size,
            },
    {
        let size: i32 = self.loads_size;
        if new_length + 1 <= size as usize {
            return Ok(());
        }
        let mut new_size: i32 = size;
        if new_size >= limit / 2 {
            if new_size >= limit {
                return Err(GrowError::TooMany { limit });
            }
            new_size = limit;
        } else {
            new_size = new_size * 2;
            if new_size < 4 {
                new_size = 4;
            }
        }
        self.loads_size = new_size;
        Ok(())
    }
}

} // verus!
