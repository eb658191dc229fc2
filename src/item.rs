use vstd::prelude::*;

verus! {

/// The bit pattern of the rating zero, which every new item starts with.
pub const ZERO_RATING: u32 = 0;

/// The model of an item: its value and the bit pattern of its rating.
pub type Rated = (Seq<char>, u32);

/// One item to be ranked: a value, unique within a ranking, and a rating.
///
/// The rating is an IEEE-754 single-precision number, held here as its
/// 32-bit pattern; its order is given by [`crate::order::rank`].
#[derive(Clone, Debug, PartialEq)]
pub struct HumansortItem {
    value: String,
    rating: u32,
}

impl View for HumansortItem {
    type V = Rated;

    closed spec fn view(&self) -> Rated {
        (self.value@, self.rating)
    }
}

impl HumansortItem {
    /// An item with the given value and rating bits.
    pub fn new(value: String, rating_bits: u32) -> (r: HumansortItem)
        ensures
            r@ == (value@, rating_bits),
    {
        HumansortItem { value, rating: rating_bits }
    }

    /// The item's value.
    pub fn value(&self) -> (r: &String)
        ensures
            r@ == self@.0,
    {
        &self.value
    }

    /// The bit pattern of the item's rating.
    pub fn rating_bits(&self) -> (r: u32)
        ensures
            r == self@.1,
    {
        self.rating
    }

    /// Replaces the item's rating.
    pub fn set_rating_bits(&mut self, rating_bits: u32)
        ensures
            final(self)@ == (old(self)@.0, rating_bits),
    {
        self.rating = rating_bits;
    }

    /// A copy of the item.
    pub fn copy(&self) -> (r: HumansortItem)
        ensures
            r@ == self@,
    {
        HumansortItem { value: self.value.clone(), rating: self.rating }
    }

    /// What the item displays as: its value.
    pub fn to_string(&self) -> (r: String)
        ensures
            r@ == self@.0,
    {
        self.value.clone()
    }
}

impl Default for HumansortItem {
    fn default() -> (r: HumansortItem)
        ensures
            r@ == (Seq::<char>::empty(), ZERO_RATING),
    {
        HumansortItem { value: String::new(), rating: ZERO_RATING }
    }
}

} // verus!
