//! Keys and values of the in-memory tree.

use crate::codec::compare::KeyOrder;
use vstd::prelude::*;

verus! {

/// A key of a tree: a value of a totally ordered type that can be copied.
pub trait TreeKey: Sized {
    /// How the key stands to `other`.
    spec fn order(&self, other: &Self) -> KeyOrder;

    /// How the key stands to `other`.
    fn compare(&self, other: &Self) -> (order: KeyOrder)
        ensures
            order == self.order(other),
    ;

    /// A copy of the key.
    fn copy(&self) -> (copy: Self)
        ensures
            copy == *self,
    ;
}

/// The keys are in a total order: a key stands equal to itself; one key
/// stands before another where the other stands behind it; and what stands
/// before or equal to a key that stands before or equal to a third stands so
/// to the third.
#[verifier::opaque]
pub open spec fn order_laws<Key: TreeKey>() -> bool {
    &&& forall|a: Key| #[trigger] a.order(&a) == KeyOrder::Equal
    &&& forall|a: Key, b: Key|
        (#[trigger] a.order(&b) == KeyOrder::Less) <==> (b.order(&a) == KeyOrder::Greater)
    &&& forall|a: Key, b: Key|
        (#[trigger] a.order(&b) == KeyOrder::Equal) ==> (b.order(&a) == KeyOrder::Equal)
    &&& forall|a: Key, b: Key, c: Key|
        #![trigger a.order(&b), b.order(&c)]
        a.order(&b) != KeyOrder::Greater && b.order(&c) != KeyOrder::Greater ==> a.order(&c)
            != KeyOrder::Greater
    &&& forall|a: Key, b: Key, c: Key|
        #![trigger a.order(&b), b.order(&c)]
        a.order(&b) == KeyOrder::Equal && b.order(&c) == KeyOrder::Equal ==> a.order(&c)
            == KeyOrder::Equal
    &&& forall|a: Key, b: Key, c: Key|
        #![trigger a.order(&b), b.order(&c)]
        a.order(&b) == KeyOrder::Less && b.order(&c) != KeyOrder::Greater ==> a.order(&c)
            == KeyOrder::Less
    &&& forall|a: Key, b: Key, c: Key|
        #![trigger a.order(&b), b.order(&c)]
        a.order(&b) != KeyOrder::Greater && b.order(&c) == KeyOrder::Less ==> a.order(&c)
            == KeyOrder::Less
}

/// A key stands equal to itself.
pub proof fn lemma_order_reflexive<Key: TreeKey>(a: Key)
    requires
        order_laws::<Key>(),
    ensures
        a.order(&a) == KeyOrder::Equal,
{
    reveal(order_laws);
}

/// One key stands before another where the other stands behind it, and
/// equal to it where the other stands equal to it.
pub proof fn lemma_order_flip<Key: TreeKey>(a: Key, b: Key)
    requires
        order_laws::<Key>(),
    ensures
        (a.order(&b) == KeyOrder::Less) == (b.order(&a) == KeyOrder::Greater),
        (a.order(&b) == KeyOrder::Greater) == (b.order(&a) == KeyOrder::Less),
        (a.order(&b) == KeyOrder::Equal) == (b.order(&a) == KeyOrder::Equal),
{
    reveal(order_laws);
    let forth = a.order(&b);
    let back = b.order(&a);
}

/// What stands before or equal to a key that stands before or equal to a
/// third stands so to the third.
pub proof fn lemma_order_chain<Key: TreeKey>(a: Key, b: Key, c: Key)
    requires
        order_laws::<Key>(),
    ensures
        a.order(&b) != KeyOrder::Greater && b.order(&c) != KeyOrder::Greater ==> a.order(&c)
            != KeyOrder::Greater,
        a.order(&b) == KeyOrder::Equal && b.order(&c) == KeyOrder::Equal ==> a.order(&c)
            == KeyOrder::Equal,
        a.order(&b) == KeyOrder::Less && b.order(&c) != KeyOrder::Greater ==> a.order(&c)
            == KeyOrder::Less,
        a.order(&b) != KeyOrder::Greater && b.order(&c) == KeyOrder::Less ==> a.order(&c)
            == KeyOrder::Less,
{
    reveal(order_laws);
    let first = a.order(&b);
    let second = b.order(&c);
}

/// Keys that are known to be in a total order.
pub trait OrderedKey: TreeKey {
    /// The keys are in a total order.
    proof fn lemma_order_laws()
        ensures
            order_laws::<Self>(),
    ;
}

/// A value of a tree: it can be copied and told from another.
pub trait TreeValue: Sized {
    /// Whether the value equals `other`.
    fn same(&self, other: &Self) -> (same: bool)
        ensures
            same == (*self == *other),
    ;

    /// A copy of the value.
    fn copy(&self) -> (copy: Self)
        ensures
            copy == *self,
    ;
}

/// How the number `a` stands to the number `b`.
pub open spec fn number_order(a: int, b: int) -> KeyOrder {
    if a < b {
        KeyOrder::Less
    } else if a > b {
        KeyOrder::Greater
    } else {
        KeyOrder::Equal
    }
}

impl TreeKey for u8 {
    open spec fn order(&self, other: &u8) -> KeyOrder {
        number_order(*self as int, *other as int)
    }

    fn compare(&self, other: &u8) -> (order: KeyOrder) {
        if *self < *other {
            KeyOrder::Less
        } else if *self > *other {
            KeyOrder::Greater
        } else {
            KeyOrder::Equal
        }
    }

    fn copy(&self) -> (copy: u8) {
        *self
    }
}

impl OrderedKey for u8 {
    proof fn lemma_order_laws() {
        reveal(order_laws);
    }
}

impl TreeValue for u8 {
    fn same(&self, other: &u8) -> (same: bool) {
        *self == *other
    }

    fn copy(&self) -> (copy: u8) {
        *self
    }
}

impl TreeKey for u16 {
    open spec fn order(&self, other: &u16) -> KeyOrder {
        number_order(*self as int, *other as int)
    }

    fn compare(&self, other: &u16) -> (order: KeyOrder) {
        if *self < *other {
            KeyOrder::Less
        } else if *self > *other {
            KeyOrder::Greater
        } else {
            KeyOrder::Equal
        }
    }

    fn copy(&self) -> (copy: u16) {
        *self
    }
}

impl OrderedKey for u16 {
    proof fn lemma_order_laws() {
        reveal(order_laws);
    }
}

impl TreeValue for u16 {
    fn same(&self, other: &u16) -> (same: bool) {
        *self == *other
    }

    fn copy(&self) -> (copy: u16) {
        *self
    }
}

impl TreeKey for u32 {
    open spec fn order(&self, other: &u32) -> KeyOrder {
        number_order(*self as int, *other as int)
    }

    fn compare(&self, other: &u32) -> (order: KeyOrder) {
        if *self < *other {
            KeyOrder::Less
        } else if *self > *other {
            KeyOrder::Greater
        } else {
            KeyOrder::Equal
        }
    }

    fn copy(&self) -> (copy: u32) {
        *self
    }
}

impl OrderedKey for u32 {
    proof fn lemma_order_laws() {
        reveal(order_laws);
    }
}

impl TreeValue for u32 {
    fn same(&self, other: &u32) -> (same: bool) {
        *self == *other
    }

    fn copy(&self) -> (copy: u32) {
        *self
    }
}

impl TreeKey for u64 {
    open spec fn order(&self, other: &u64) -> KeyOrder {
        number_order(*self as int, *other as int)
    }

    fn compare(&self, other: &u64) -> (order: KeyOrder) {
        if *self < *other {
            KeyOrder::Less
        } else if *self > *other {
            KeyOrder::Greater
        } else {
            KeyOrder::Equal
        }
    }

    fn copy(&self) -> (copy: u64) {
        *self
    }
}

impl OrderedKey for u64 {
    proof fn lemma_order_laws() {
        reveal(order_laws);
    }
}

impl TreeValue for u64 {
    fn same(&self, other: &u64) -> (same: bool) {
        *self == *other
    }

    fn copy(&self) -> (copy: u64) {
        *self
    }
}

impl TreeKey for usize {
    open spec fn order(&self, other: &usize) -> KeyOrder {
        number_order(*self as int, *other as int)
    }

    fn compare(&self, other: &usize) -> (order: KeyOrder) {
        if *self < *other {
            KeyOrder::Less
        } else if *self > *other {
            KeyOrder::Greater
        } else {
            KeyOrder::Equal
        }
    }

    fn copy(&self) -> (copy: usize) {
        *self
    }
}

impl OrderedKey for usize {
    proof fn lemma_order_laws() {
        reveal(order_laws);
    }
}

impl TreeValue for usize {
    fn same(&self, other: &usize) -> (same: bool) {
        *self == *other
    }

    fn copy(&self) -> (copy: usize) {
        *self
    }
}

impl TreeKey for i8 {
    open spec fn order(&self, other: &i8) -> KeyOrder {
        number_order(*self as int, *other as int)
    }

    fn compare(&self, other: &i8) -> (order: KeyOrder) {
        if *self < *other {
            KeyOrder::Less
        } else if *self > *other {
            KeyOrder::Greater
        } else {
            KeyOrder::Equal
        }
    }

    fn copy(&self) -> (copy: i8) {
        *self
    }
}

impl OrderedKey for i8 {
    proof fn lemma_order_laws() {
        reveal(order_laws);
    }
}

impl TreeValue for i8 {
    fn same(&self, other: &i8) -> (same: bool) {
        *self == *other
    }

    fn copy(&self) -> (copy: i8) {
        *self
    }
}

impl TreeKey for i16 {
    open spec fn order(&self, other: &i16) -> KeyOrder {
        number_order(*self as int, *other as int)
    }

    fn compare(&self, other: &i16) -> (order: KeyOrder) {
        if *self < *other {
            KeyOrder::Less
        } else if *self > *other {
            KeyOrder::Greater
        } else {
            KeyOrder::Equal
        }
    }

    fn copy(&self) -> (copy: i16) {
        *self
    }
}

impl OrderedKey for i16 {
    proof fn lemma_order_laws() {
        reveal(order_laws);
    }
}

impl TreeValue for i16 {
    fn same(&self, other: &i16) -> (same: bool) {
        *self == *other
    }

    fn copy(&self) -> (copy: i16) {
        *self
    }
}

impl TreeKey for i32 {
    open spec fn order(&self, other: &i32) -> KeyOrder {
        number_order(*self as int, *other as int)
    }

    fn compare(&self, other: &i32) -> (order: KeyOrder) {
        if *self < *other {
            KeyOrder::Less
        } else if *self > *other {
            KeyOrder::Greater
        } else {
            KeyOrder::Equal
        }
    }

    fn copy(&self) -> (copy: i32) {
        *self
    }
}

impl OrderedKey for i32 {
    proof fn lemma_order_laws() {
        reveal(order_laws);
    }
}

impl TreeValue for i32 {
    fn same(&self, other: &i32) -> (same: bool) {
        *self == *other
    }

    fn copy(&self) -> (copy: i32) {
        *self
    }
}

impl TreeKey for i64 {
    open spec fn order(&self, other: &i64) -> KeyOrder {
        number_order(*self as int, *other as int)
    }

    fn compare(&self, other: &i64) -> (order: KeyOrder) {
        if *self < *other {
            KeyOrder::Less
        } else if *self > *other {
            KeyOrder::Greater
        } else {
            KeyOrder::Equal
        }
    }

    fn copy(&self) -> (copy: i64) {
        *self
    }
}

impl OrderedKey for i64 {
    proof fn lemma_order_laws() {
        reveal(order_laws);
    }
}

impl TreeValue for i64 {
    fn same(&self, other: &i64) -> (same: bool) {
        *self == *other
    }

    fn copy(&self) -> (copy: i64) {
        *self
    }
}

impl TreeKey for isize {
    open spec fn order(&self, other: &isize) -> KeyOrder {
        number_order(*self as int, *other as int)
    }

    fn compare(&self, other: &isize) -> (order: KeyOrder) {
        if *self < *other {
            KeyOrder::Less
        } else if *self > *other {
            KeyOrder::Greater
        } else {
            KeyOrder::Equal
        }
    }

    fn copy(&self) -> (copy: isize) {
        *self
    }
}

impl OrderedKey for isize {
    proof fn lemma_order_laws() {
        reveal(order_laws);
    }
}

impl TreeValue for isize {
    fn same(&self, other: &isize) -> (same: bool) {
        *self == *other
    }

    fn copy(&self) -> (copy: isize) {
        *self
    }
}

} // verus!
