//! Code that the rest of the app can use for dealing with CNF variables.
//! Using code from sub-modules directly should not be needed

pub mod binary_encoding;
pub mod cell_pairs;
pub mod decimal_encoding;

use std::collections::HashSet;
use vstd::prelude::*;
use crate::app_state::EncodingType;
use crate::seq_util::iabs;

verus! {

/// Enum that enables the app to handle different types of CNF variables
#[derive(Clone, Copy, Debug, PartialEq, Eq, Structural, PartialOrd, Ord)]
#[allow(inconsistent_fields)]
pub enum CnfVariable {
    Decimal { row: i32, col: i32, value: i32 },
    Bit { row: i32, col: i32, bit_index: i32, value: bool },
    Equality { row: i32, col: i32, row2: i32, col2: i32, bit_index: i32, equal: bool },
}

impl DeepView for CnfVariable {
    type V = CnfVariable;

    open spec fn deep_view(&self) -> CnfVariable {
        *self
    }
}

/// The variable that an identifier denotes under an encoding. Binary
/// identifiers above 9 * 9 * 4 in absolute value are equality variables.
pub open spec fn spec_from_cnf(identifier: int, encoding: EncodingType) -> CnfVariable {
    match encoding {
        EncodingType::Binary => {
            if iabs(identifier) > 324 {
                let t = binary_encoding::spec_eq_identifier_to_tuple(identifier);
                CnfVariable::Equality {
                    row: t.0 as i32,
                    col: t.1 as i32,
                    row2: t.2 as i32,
                    col2: t.3 as i32,
                    bit_index: t.4 as i32,
                    equal: t.5,
                }
            } else {
                let t = binary_encoding::spec_identifier_to_tuple(identifier);
                CnfVariable::Bit { row: t.0 as i32, col: t.1 as i32, bit_index: t.2 as i32, value: t.3 }
            }
        },
        EncodingType::Decimal { .. } => {
            let t = decimal_encoding::spec_identifier_to_tuple(identifier);
            CnfVariable::Decimal { row: t.0 as i32, col: t.1 as i32, value: t.2 as i32 }
        },
    }
}

/// The literal of a variable: the identifier, negated for a false bit or an
/// unequal pair. A decimal variable's value enters the formula as it is.
pub open spec fn spec_to_cnf(var: CnfVariable) -> int {
    match var {
        CnfVariable::Decimal { row, col, value } => decimal_encoding::spec_cnf_identifier(
            row as int,
            col as int,
            value as int,
        ),
        CnfVariable::Bit { row, col, bit_index, value } => {
            let id = binary_encoding::spec_cnf_identifier(row as int, col as int, bit_index as int);
            if value {
                id
            } else {
                -id
            }
        },
        CnfVariable::Equality { row, col, row2, col2, bit_index, equal } => {
            let id = binary_encoding::spec_eq_cnf_identifier(
                row as int,
                col as int,
                row2 as int,
                col2 as int,
                bit_index as int,
            );
            if equal {
                id
            } else {
                -id
            }
        },
    }
}

/// The literal of a variable can be computed without overflow.
pub open spec fn to_cnf_fits(var: CnfVariable) -> bool {
    match var {
        CnfVariable::Decimal { row, col, value } => decimal_encoding::dec_id_fits(
            row as int,
            col as int,
            value as int,
        ),
        CnfVariable::Bit { row, col, bit_index, value } => {
            &&& binary_encoding::bit_id_fits(row as int, col as int, bit_index as int)
            &&& binary_encoding::spec_cnf_identifier(row as int, col as int, bit_index as int)
                != i32::MIN
        },
        CnfVariable::Equality { row, col, row2, col2, bit_index, equal } => {
            &&& binary_encoding::eq_id_fits(
                row as int,
                col as int,
                row2 as int,
                col2 as int,
                bit_index as int,
            )
            &&& binary_encoding::spec_eq_cnf_identifier(
                row as int,
                col as int,
                row2 as int,
                col2 as int,
                bit_index as int,
            ) != i32::MIN
        },
    }
}

/// Whether bit `bit_index` of `i` (tested as `i & (1 << bit_index) > 0`) equals `value`.
pub open spec fn bit_matches(i: i32, bit_index: i32, value: bool) -> bool {
    ((i & (1i32 << bit_index)) > 0) == value
}

/// The values 1..=9 a variable allows for its cell: its own value for a
/// decimal variable, the values whose binary form (value - 1) agrees with a
/// bit variable, and none for an equality variable.
pub open spec fn spec_possible_numbers(var: CnfVariable) -> Set<i32> {
    match var {
        CnfVariable::Equality { .. } => Set::empty(),
        CnfVariable::Decimal { value, .. } => set![value],
        CnfVariable::Bit { bit_index, value, .. } => Set::new(
            |n: i32| 1 <= n <= 9 && bit_matches((n - 1) as i32, bit_index, value),
        ),
    }
}

/// The values among 1..=k whose bit `bit_index` (of value - 1) equals `value`, ascending.
pub open spec fn possible_upto(k: int, bit_index: i32, value: bool) -> Seq<i32>
    decreases k,
{
    if k <= 0 {
        Seq::empty()
    } else {
        possible_upto(k - 1, bit_index, value) + if bit_matches((k - 1) as i32, bit_index, value) {
            seq![k as i32]
        } else {
            Seq::empty()
        }
    }
}

/// The shift in `bit_matches` is defined for the variable.
pub open spec fn bit_index_ok(var: CnfVariable) -> bool {
    match var {
        CnfVariable::Bit { bit_index, .. } => 0 <= bit_index < 32,
        CnfVariable::Equality { bit_index, .. } => 0 <= bit_index < 32,
        CnfVariable::Decimal { .. } => true,
    }
}

impl CnfVariable {
    pub fn from_cnf(identifier: i32, encoding: &EncodingType) -> (var: Self)
        requires
            identifier != i32::MIN,
        ensures
            var == spec_from_cnf(identifier as int, *encoding),
    {
        match encoding {
            EncodingType::Binary => {
                let a = if identifier < 0 { -identifier } else { identifier };
                if a > 9 * 9 * 4 {
                    let (row, col, row2, col2, bit_index, equal) =
                        binary_encoding::eq_identifier_to_tuple(identifier);
                    Self::Equality { row, col, row2, col2, bit_index, equal }
                } else {
                    let (row, col, bit_index, value) = binary_encoding::identifier_to_tuple(identifier);
                    Self::Bit { row, col, bit_index, value }
                }
            },
            EncodingType::Decimal { .. } => {
                let (row, col, value) = decimal_encoding::identifier_to_tuple(identifier);
                Self::Decimal { row, col, value }
            },
        }
    }

    /// Gets the CNF identifier of a variable
    pub fn to_cnf(&self) -> (id: i32)
        requires
            to_cnf_fits(*self),
        ensures
            id == spec_to_cnf(*self),
    {
        match self {
            Self::Decimal { row, col, value } => decimal_encoding::cnf_identifier(*row, *col, *value),
            Self::Bit { row, col, bit_index, value } => {
                if *value {
                    binary_encoding::cnf_identifier(*row, *col, *bit_index)
                } else {
                    -binary_encoding::cnf_identifier(*row, *col, *bit_index)
                }
            },
            Self::Equality { row, col, row2, col2, bit_index, equal } => {
                if *equal {
                    binary_encoding::eq_cnf_identifier(*row, *col, *row2, *col2, *bit_index)
                } else {
                    -binary_encoding::eq_cnf_identifier(*row, *col, *row2, *col2, *bit_index)
                }
            },
        }
    }

    /// Returns HashSet of possible numbers, empty if self is equality variable, since
    /// the concept of possible values does not work for equality constraints.
    /// Used in drawing little numbers.
    pub fn get_possible_numbers(&self) -> (possibilities: HashSet<i32>)
        requires
            *self matches CnfVariable::Bit { bit_index, .. } ==> 0 <= bit_index < 32,
        ensures
            possibilities@ == spec_possible_numbers(*self),
    {
        broadcast use vstd::std_specs::hash::group_hash_axioms;

        match self {
            Self::Equality { .. } => {
                let r = HashSet::new();
                assert(r@ =~= spec_possible_numbers(*self));
                r
            },
            Self::Decimal { value, .. } => {
                let mut r = HashSet::new();
                r.insert(*value);
                assert(r@ =~= spec_possible_numbers(*self));
                r
            },
            Self::Bit { bit_index, value, .. } => {
                let mut possibilities: HashSet<i32> = HashSet::new();
                let mut i: i32 = 0;
                while i < 9
                    invariant
                        0 <= i <= 9,
                        0 <= *bit_index < 32,
                        possibilities@ == Set::new(
                            |n: i32| 1 <= n <= i && bit_matches((n - 1) as i32, *bit_index, *value),
                        ),
                    decreases 9 - i,
                {
                    if ((i & (1 << *bit_index)) > 0) == *value {
                        possibilities.insert(i + 1);
                    }
                    assert(possibilities@ =~= Set::new(
                        |n: i32| 1 <= n <= i + 1 && bit_matches((n - 1) as i32, *bit_index, *value),
                    ));
                    i += 1;
                }
                assert(possibilities@ =~= spec_possible_numbers(*self));
                possibilities
            },
        }
    }

    /// Get the two sets of values, by making use of the 'get_possible_numbers' method of CNF variables
    pub fn get_possible_groups(&self) -> (groups: (Vec<i32>, Vec<i32>))
        requires
            *self matches CnfVariable::Equality { bit_index, .. } ==> 0 <= bit_index < 32,
        ensures
            match *self {
                CnfVariable::Equality { bit_index, .. } => {
                    &&& groups.0@ == possible_upto(9, bit_index, true)
                    &&& groups.1@ == possible_upto(9, bit_index, false)
                },
                _ => groups.0@.len() == 0 && groups.1@.len() == 0,
            },
    {
        match self {
            Self::Equality { bit_index, .. } => {
                let vec1 = possible_list(*bit_index, true);
                let vec2 = possible_list(*bit_index, false);
                (vec1, vec2)
            },
            Self::Decimal { .. } => (Vec::new(), Vec::new()),
            Self::Bit { .. } => (Vec::new(), Vec::new()),
        }
    }
}

/// The values 1..=9 whose bit `bit_index` (of value - 1) equals `value`, ascending.
pub(crate) fn possible_list(bit_index: i32, value: bool) -> (r: Vec<i32>)
    requires
        0 <= bit_index < 32,
    ensures
        r@ == possible_upto(9, bit_index, value),
{
    let mut r: Vec<i32> = Vec::new();
    let mut i: i32 = 0;
    while i < 9
        invariant
            0 <= i <= 9,
            0 <= bit_index < 32,
            r@ == possible_upto(i as int, bit_index, value),
        decreases 9 - i,
    {
        if ((i & (1 << bit_index)) > 0) == value {
            r.push(i + 1);
        }
        assert(r@ =~= possible_upto(i + 1, bit_index, value));
        i += 1;
    }
    r
}

/// Check if the encoding rules are enough for Cadial to properly solve a sudoku
pub fn cnf_encoding_rules_ok(
    cell_at_least_one: bool,
    cell_at_most_one: bool,
    sudoku_has_all_values: bool,
    sudoku_has_unique_values: bool,
) -> (ok: bool)
    ensures
        ok == ((cell_at_least_one && sudoku_has_unique_values) || (cell_at_most_one
            && sudoku_has_all_values)),
{
    (cell_at_least_one && sudoku_has_unique_values) || (cell_at_most_one && sudoku_has_all_values)
}


/// The variable refers to cells of the 9x9 grid, a value 1..=9 or a bit 0..=3.
pub open spec fn in_grid(var: CnfVariable) -> bool {
    match var {
        CnfVariable::Decimal { row, col, value } => 1 <= row <= 9 && 1 <= col <= 9 && 1 <= value
            <= 9,
        CnfVariable::Bit { row, col, bit_index, .. } => 1 <= row <= 9 && 1 <= col <= 9 && 0
            <= bit_index <= 3,
        CnfVariable::Equality { row, col, row2, col2, bit_index, .. } => 1 <= row <= 9 && 1 <= col
            <= 9 && 1 <= row2 <= 9 && 1 <= col2 <= 9 && 0 <= bit_index <= 3,
    }
}

/// The encoding a variable belongs to: decimal variables to a decimal
/// encoding, bit and equality variables to the binary one.
pub open spec fn belongs_to(var: CnfVariable, encoding: EncodingType) -> bool {
    match var {
        CnfVariable::Decimal { .. } => encoding is Decimal,
        _ => encoding is Binary,
    }
}

/// Reading back the literal of a variable gives the variable again; for a
/// decimal variable, reading back the negated literal gives the negated value.
pub proof fn lemma_cnf_variable_round_trip(var: CnfVariable, encoding: EncodingType)
    requires
        in_grid(var),
        belongs_to(var, encoding),
    ensures
        to_cnf_fits(var),
        spec_from_cnf(spec_to_cnf(var), encoding) == var,
        var matches CnfVariable::Decimal { row, col, value } ==> spec_from_cnf(
            -spec_to_cnf(var),
            encoding,
        ) == (CnfVariable::Decimal { row, col, value: (-value) as i32 }),
{
    match var {
        CnfVariable::Decimal { row, col, value } => {
            decimal_encoding::lemma_identifier_round_trip(row as int, col as int, value as int);
        },
        CnfVariable::Bit { row, col, bit_index, value } => {
            binary_encoding::lemma_identifier_round_trip(row as int, col as int, bit_index as int);
        },
        CnfVariable::Equality { row, col, row2, col2, bit_index, equal } => {
            binary_encoding::lemma_eq_identifier_round_trip(
                row as int,
                col as int,
                row2 as int,
                col2 as int,
                bit_index as int,
            );
        },
    }
}

} // verus!
