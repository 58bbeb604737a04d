//! The string table of one batch: every distinct string gets the next index,
//! in the order in which the strings are first seen.

use vstd::prelude::*;
use vstd::hash_map::StringHashMap;
use crate::error::EncodeError;
use crate::seen::{lemma_index_of_unique, lemma_noted, noted};

verus! {

/// The most strings that a table holds: its length is written as a 32-bit
/// count.
pub const TABLE_CAPACITY: usize = 0xffff_ffff;

/// Whether `table` takes `value`: it holds it already, or has room for it.
pub open spec fn can_intern(table: Seq<Seq<char>>, value: Seq<char>) -> bool {
    table.contains(value) || table.len() < TABLE_CAPACITY
}

spec fn table_view(table: Seq<String>) -> Seq<Seq<char>> {
    Seq::new(table.len(), |i: int| table[i]@)
}

/// The strings seen so far in a batch, each once, and for each its index.
pub struct StringInterner {
    index: StringHashMap<u32>,
    table: Vec<String>,
}

impl View for StringInterner {
    type V = Seq<Seq<char>>;

    /// The table: the strings in the order of their indices.
    closed spec fn view(&self) -> Seq<Seq<char>> {
        table_view(self.table@)
    }
}

spec fn consistent(index: Map<Seq<char>, u32>, table: Seq<String>) -> bool {
    &&& table.len() <= TABLE_CAPACITY
    &&& forall|i: int|
        0 <= i < table.len() ==> index.contains_key(#[trigger] table[i]@) && index[table[i]@] == i
    &&& forall|s: Seq<char>| #[trigger]
        index.contains_key(s) ==> index[s] < table.len() && table[index[s] as int]@ == s
}

impl StringInterner {
    /// The index and the table say the same.
    #[verifier::type_invariant]
    pub closed spec fn well_formed(&self) -> bool {
        consistent(self.index@, self.table@)
    }

    /// A well-formed table holds no string twice and fits a 32-bit count.
    pub proof fn lemma_well_formed(&self)
        requires
            self.well_formed(),
        ensures
            self@.no_duplicates(),
            self@.len() <= TABLE_CAPACITY,
    {
        let t = self.table@;
        assert forall|i: int, j: int| 0 <= i < self@.len() && 0 <= j < self@.len() && i != j implies self@[i]
            != self@[j] by {
            assert(self.index@[t[i]@] == i);
            assert(self.index@[t[j]@] == j);
        }
    }

    /// The empty table.
    pub fn new() -> (r: Self)
        ensures
            r@ == Seq::<Seq<char>>::empty(),
    {
        let r = StringInterner { index: StringHashMap::new(), table: Vec::new() };
        assert(r@ =~= Seq::<Seq<char>>::empty());
        r
    }

    /// The number of strings in the table.
    pub fn len(&self) -> (n: u32)
        ensures
            n == self@.len(),
    {
        proof {
            use_type_invariant(self);
        }
        self.table.len() as u32
    }

    /// The index of `value`, which joins the table at its end if it is new.
    /// A new string is refused where the table is full, and the table stays
    /// as it is.
    pub fn intern(&mut self, value: &str) -> (r: Result<u32, EncodeError>)
        ensures
            r is Ok <==> can_intern(old(self)@, value@),
            r matches Ok(i) ==> final(self)@ == noted(old(self)@, value@) && i == final(self)@.index_of(
                value@,
            ) && i < final(self)@.len() && final(self)@[i as int] == value@,
            r is Err ==> final(self)@ == old(self)@,
    {
        proof {
            use_type_invariant(&*self);
            self.lemma_well_formed();
        }
        let ghost before = self@;
        let known = match self.index.get(value) {
            Some(i) => Some(*i),
            None => None,
        };
        match known {
            Some(i) => {
                proof {
                    assert(before[i as int] == value@);
                    lemma_index_of_unique(before, value@, i as int);
                }
                Ok(i)
            },
            None => {
                proof {
                    if before.contains(value@) {
                        let j = choose|j: int| 0 <= j < before.len() && before[j] == value@;
                        assert(self.index@.contains_key(self.table@[j]@));
                    }
                }
                let n = self.table.len();
                if n >= TABLE_CAPACITY {
                    return Err(EncodeError::LengthOverflow);
                }
                let mut taken = StringInterner::new();
                core::mem::swap(self, &mut taken);
                let mut index = taken.index;
                let mut table = taken.table;
                let ghost old_index = index@;
                let ghost old_table = table@;
                table.push(value.to_owned());
                index.insert(value.to_owned(), n as u32);
                proof {
                    assert forall|i: int| 0 <= i < table@.len() implies index@.contains_key(
                        #[trigger] table@[i]@,
                    ) && index@[table@[i]@] == i by {
                        if i < n {
                            assert(table@[i] == old_table[i]);
                            assert(old_index.contains_key(old_table[i]@));
                        }
                    }
                    assert forall|s: Seq<char>| #[trigger] index@.contains_key(s) implies index@[s]
                        < table@.len() && table@[index@[s] as int]@ == s by {
                        if s != value@ {
                            assert(old_index.contains_key(s));
                            assert(table@[old_index[s] as int] == old_table[old_index[s] as int]);
                        }
                    }
                    assert(table_view(table@) =~= before.push(value@));
                    lemma_noted(before, value@);
                    lemma_index_of_unique(before.push(value@), value@, n as int);
                }
                *self = StringInterner { index, table };
                Ok(n as u32)
            },
        }
    }

    /// The table in the order of the indices. The interner is used up.
    pub fn drain(self) -> (r: Vec<String>)
        ensures
            r@.len() == self@.len(),
            forall|i: int| 0 <= i < r@.len() ==> (#[trigger] r@[i])@ == self@[i],
    {
        self.table
    }
}

} // verus!
