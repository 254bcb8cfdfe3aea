//! Variables of the binary encoding read from their identifiers: a bit of a
//! cell, or the equality of one bit of two cells.

use vstd::prelude::*;
use crate::cnf::binary_encoding;
use crate::no_min_literal;

pub use crate::cnf::binary_encoding::{cnf_identifier, eq_cnf_identifier, sudoku_to_cnf};

verus! {

/// One bit of the value of a cell (the value minus one, in binary).
#[derive(Clone, Copy)]
pub struct BitVar {
    pub row: i32,
    pub col: i32,
    pub bit_index: i32,
    pub bit_value: bool,
}

/// Whether bit `bit_index` is the same in two cells.
#[derive(Clone, Copy)]
pub struct EqVar {
    pub row: i32,
    pub col: i32,
    pub row2: i32,
    pub col2: i32,
    pub bit_index: i32,
    pub equal: bool,
}

impl BitVar {
    /// The bit variable a (possibly negated) identifier stands for.
    pub fn new(identifier: i32) -> (var: BitVar)
        requires
            identifier != i32::MIN,
        ensures
            (var.row as int, var.col as int, var.bit_index as int, var.bit_value)
                == binary_encoding::spec_identifier_to_tuple(identifier as int),
    {
        let (row, col, bit_index, bit_value) = binary_encoding::identifier_to_tuple(identifier);
        BitVar { row, col, bit_index, bit_value }
    }

    /// The literal of the variable: its identifier, negated when the bit is 0.
    pub fn to_cnf(&self) -> (lit: i32)
        requires
            binary_encoding::bit_id_fits(self.row as int, self.col as int, self.bit_index as int),
        ensures
            lit == if self.bit_value {
                binary_encoding::spec_cnf_identifier(self.row as int, self.col as int, self.bit_index as int)
            } else {
                -binary_encoding::spec_cnf_identifier(self.row as int, self.col as int, self.bit_index as int)
            },
    {
        let id = binary_encoding::cnf_identifier(self.row, self.col, self.bit_index);
        if self.bit_value {
            id
        } else {
            -id
        }
    }
}

impl EqVar {
    /// The equality variable a (possibly negated) identifier stands for.
    pub fn new(identifier: i32) -> (var: EqVar)
        requires
            identifier != i32::MIN,
        ensures
            (var.row as int, var.col as int, var.row2 as int, var.col2 as int, var.bit_index as int, var.equal)
                == binary_encoding::spec_eq_identifier_to_tuple(identifier as int),
    {
        let (row, col, row2, col2, bit_index, equal) = binary_encoding::eq_identifier_to_tuple(
            identifier,
        );
        EqVar { row, col, row2, col2, bit_index, equal }
    }

    /// The literal of the variable: its identifier, negated when the bits differ.
    pub fn to_cnf(&self) -> (lit: i32)
        requires
            binary_encoding::eq_id_fits(
                self.row as int,
                self.col as int,
                self.row2 as int,
                self.col2 as int,
                self.bit_index as int,
            ),
        ensures
            lit == if self.equal {
                binary_encoding::spec_eq_cnf_identifier(
                    self.row as int,
                    self.col as int,
                    self.row2 as int,
                    self.col2 as int,
                    self.bit_index as int,
                )
            } else {
                -binary_encoding::spec_eq_cnf_identifier(
                    self.row as int,
                    self.col as int,
                    self.row2 as int,
                    self.col2 as int,
                    self.bit_index as int,
                )
            },
    {
        let id = binary_encoding::eq_cnf_identifier(
            self.row,
            self.col,
            self.row2,
            self.col2,
            self.bit_index,
        );
        if self.equal {
            id
        } else {
            -id
        }
    }
}

/// The tuple (row, col, bit_index, bit_value) of a bit identifier, as integers.
pub open spec fn bit_tuple(identifier: i32) -> (i32, i32, i32, bool) {
    let t = binary_encoding::spec_identifier_to_tuple(identifier as int);
    (t.0 as i32, t.1 as i32, t.2 as i32, t.3)
}

/// Every literal of every constraint read as a bit tuple.
pub fn create_tuples_from_constraints(constraints: Vec<Vec<i32>>) -> (tuples: Vec<
    Vec<(i32, i32, i32, bool)>,
>)
    requires
        no_min_literal(constraints.deep_view()),
    ensures
        tuples@.len() == constraints@.len(),
        forall|i: int|
            0 <= i < constraints@.len() ==> (#[trigger] tuples@[i])@ == Seq::new(
                constraints@[i]@.len(),
                |j: int| bit_tuple(constraints@[i]@[j]),
            ),
{
    let mut tuples: Vec<Vec<(i32, i32, i32, bool)>> = Vec::new();
    let mut i: usize = 0;
    while i < constraints.len()
        invariant
            i <= constraints@.len(),
            no_min_literal(constraints.deep_view()),
            tuples@.len() == i,
            forall|k: int|
                0 <= k < i ==> (#[trigger] tuples@[k])@ == Seq::new(
                    constraints@[k]@.len(),
                    |j: int| bit_tuple(constraints@[k]@[j]),
                ),
        decreases constraints@.len() - i,
    {
        let constraint = &constraints[i];
        let mut temp: Vec<(i32, i32, i32, bool)> = Vec::new();
        let mut j: usize = 0;
        while j < constraint.len()
            invariant
                j <= constraint@.len(),
                i < constraints@.len(),
                *constraint == constraints@[i as int],
                no_min_literal(constraints.deep_view()),
                temp@ == Seq::new(j as nat, |m: int| bit_tuple(constraint@[m])),
            decreases constraint@.len() - j,
        {
            assert(constraints.deep_view()[i as int][j as int] == constraint@[j as int]);
            let t = binary_encoding::identifier_to_tuple(constraint[j]);
            temp.push(t);
            assert(temp@ =~= Seq::new((j + 1) as nat, |m: int| bit_tuple(constraint@[m])));
            j += 1;
        }
        tuples.push(temp);
        i += 1;
    }
    tuples
}

} // verus!
