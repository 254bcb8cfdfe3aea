//! How a CNF variable is written in the lists of learned constraints and
//! trails: a name (the value, or the bit index after `B` or `EQ`, with `~`
//! before a negated literal), the cells it refers to, whether it is negated
//! (drawn in red), and whether the solved sudoku makes it true (underlined).

use vstd::prelude::*;
use crate::cnf::CnfVariable;
use crate::grid_view::{
    contains_value, drawable, grid_wf, groups_agree, lemma_grid_dims, shown_value, value_at,
    CellModel, SudokuCell,
};
use crate::seq_util::iabs;
use crate::sudoku::{append_cell, append_decimal, decimal_text, int_text};

verus! {

/// The label of a variable, ready to be drawn.
pub struct VarLabel {
    /// The large part of the label.
    pub name: String,
    /// The small part: the cell, or the two cells, of the variable.
    pub position: String,
    /// The literal is negated (drawn in red).
    pub negated: bool,
    /// The literal holds in the solved sudoku (drawn underlined).
    pub underlined: bool,
}

/// The large part of a label: a decimal variable's value (its magnitude, with
/// `~` when it is not positive); `B` and the bit index for a bit variable,
/// `EQ` and the bit index for an equality variable, with `~` before them
/// when the literal is negated.
pub open spec fn label_name(var: CnfVariable) -> Seq<char> {
    match var {
        CnfVariable::Decimal { value, .. } => (if value > 0 {
            Seq::empty()
        } else {
            seq!['~']
        }) + decimal_text(iabs(value as int) as nat),
        CnfVariable::Bit { bit_index, value, .. } => (if value {
            seq!['B']
        } else {
            seq!['~', 'B']
        }) + int_text(bit_index as int),
        CnfVariable::Equality { bit_index, equal, .. } => (if equal {
            seq!['E', 'Q']
        } else {
            seq!['~', 'E', 'Q']
        }) + int_text(bit_index as int),
    }
}

/// A cell written as `(row,col)`.
pub open spec fn cell_position(row: i32, col: i32) -> Seq<char> {
    seq!['('] + int_text(row as int) + seq![','] + int_text(col as int) + seq![')']
}

/// The small part of a label: the cell of the variable, or both cells of an
/// equality variable separated by `;`.
pub open spec fn label_position(var: CnfVariable) -> Seq<char> {
    match var {
        CnfVariable::Decimal { row, col, .. } => cell_position(row, col),
        CnfVariable::Bit { row, col, .. } => cell_position(row, col),
        CnfVariable::Equality { row, col, row2, col2, .. } => cell_position(row, col) + seq![';']
            + cell_position(row2, col2),
    }
}

/// The literal is negated: a decimal value that is not positive, a false
/// bit, or an unequal pair.
pub open spec fn label_negated(var: CnfVariable) -> bool {
    match var {
        CnfVariable::Decimal { value, .. } => !(value > 0),
        CnfVariable::Bit { value, .. } => !value,
        CnfVariable::Equality { equal, .. } => !equal,
    }
}

/// The literal holds for the values of the grid (an empty cell counts as 0):
/// a decimal variable whose value is the cell's value, or that negates a value
/// other than the cell's; a bit variable that allows the cell's value; an
/// equality variable whose two cells' values agree with it.
pub open spec fn label_underlined(g: Seq<Seq<CellModel>>, var: CnfVariable) -> bool {
    match var {
        CnfVariable::Decimal { row, col, value } => {
            let v = shown_value(g[row - 1][col - 1]);
            value == v || (value < 0 && value != -v)
        },
        CnfVariable::Bit { row, col, .. } => crate::cnf::spec_possible_numbers(var).contains(
            shown_value(g[row - 1][col - 1]),
        ),
        CnfVariable::Equality { row, col, row2, col2, bit_index, equal } => groups_agree(
            bit_index,
            equal,
            shown_value(g[row - 1][col - 1]),
            shown_value(g[row2 - 1][col2 - 1]),
        ),
    }
}

/// A variable can be labelled against the grid: it can be drawn on it, and a
/// decimal value has a magnitude in `i32`.
pub open spec fn labelable(var: CnfVariable, g: Seq<Seq<CellModel>>) -> bool {
    &&& drawable(var, g)
    &&& var matches CnfVariable::Decimal { value, .. } ==> value != i32::MIN
}

/// Appends a literal string.
fn append_text(text: &mut String, s: &str)
    ensures
        final(text)@ == old(text)@ + s@,
{
    text.append(s);
}

/// Appends a cell as `(row,col)`.
fn append_position(text: &mut String, row: i32, col: i32)
    ensures
        final(text)@ == old(text)@ + cell_position(row, col),
{
    proof {
        reveal_strlit("(");
        reveal_strlit(",");
        reveal_strlit(")");
    }
    append_text(text, "(");
    append_cell(text, Some(row));
    append_text(text, ",");
    append_cell(text, Some(col));
    append_text(text, ")");
    assert(text@ =~= old(text)@ + cell_position(row, col));
}

/// The large part of the label of a variable.
fn name_of(var: &CnfVariable) -> (name: String)
    requires
        var matches CnfVariable::Decimal { value, .. } ==> value != i32::MIN,
    ensures
        name@ == label_name(*var),
{
    let mut name = String::new();
    proof {
        reveal_strlit("~");
        reveal_strlit("B");
        reveal_strlit("~B");
        reveal_strlit("EQ");
        reveal_strlit("~EQ");
    }
    match var {
        CnfVariable::Decimal { value, .. } => {
            if !(*value > 0) {
                append_text(&mut name, "~");
            }
            let magnitude: u64 = if *value < 0 {
                (-*value) as u64
            } else {
                *value as u64
            };
            append_decimal(&mut name, magnitude);
        },
        CnfVariable::Bit { bit_index, value, .. } => {
            if *value {
                append_text(&mut name, "B");
            } else {
                append_text(&mut name, "~B");
            }
            append_cell(&mut name, Some(*bit_index));
        },
        CnfVariable::Equality { bit_index, equal, .. } => {
            if *equal {
                append_text(&mut name, "EQ");
            } else {
                append_text(&mut name, "~EQ");
            }
            append_cell(&mut name, Some(*bit_index));
        },
    }
    assert(name@ =~= label_name(*var));
    name
}

/// The small part of the label of a variable.
fn position_of(var: &CnfVariable) -> (position: String)
    ensures
        position@ == label_position(*var),
{
    let mut position = String::new();
    match var {
        CnfVariable::Decimal { row, col, .. } => append_position(&mut position, *row, *col),
        CnfVariable::Bit { row, col, .. } => append_position(&mut position, *row, *col),
        CnfVariable::Equality { row, col, row2, col2, .. } => {
            append_position(&mut position, *row, *col);
            proof {
                reveal_strlit(";");
            }
            append_text(&mut position, ";");
            append_position(&mut position, *row2, *col2);
        },
    }
    assert(position@ =~= label_position(*var));
    position
}

/// Whether the solved grid makes the literal true.
fn underlined_in(grid: &Vec<Vec<SudokuCell>>, var: &CnfVariable) -> (u: bool)
    requires
        grid_wf(grid.deep_view()),
        drawable(*var, grid.deep_view()),
    ensures
        u == label_underlined(grid.deep_view(), *var),
{
    proof {
        lemma_grid_dims(*grid);
    }
    match var {
        CnfVariable::Decimal { row, col, value } => {
            let v = value_at(grid, (*row - 1) as usize, (*col - 1) as usize);
            *value == v || (*value < 0 && *value != -v)
        },
        CnfVariable::Bit { row, col, .. } => {
            let v = value_at(grid, (*row - 1) as usize, (*col - 1) as usize);
            let possible = var.get_possible_numbers();
            possible.contains(&v)
        },
        CnfVariable::Equality { row, col, row2, col2, equal, .. } => {
            let v1 = value_at(grid, (*row - 1) as usize, (*col - 1) as usize);
            let v2 = value_at(grid, (*row2 - 1) as usize, (*col2 - 1) as usize);
            let (group1, group2) = var.get_possible_groups();
            if *equal {
                (contains_value(&group1, v1) && contains_value(&group1, v2)) || (contains_value(
                    &group2,
                    v1,
                ) && contains_value(&group2, v2))
            } else {
                (contains_value(&group1, v1) && contains_value(&group2, v2)) || (contains_value(
                    &group2,
                    v1,
                ) && contains_value(&group1, v2))
            }
        },
    }
}

/// The label of a variable of a learned constraint or a trail, read against
/// the (solved) grid.
pub fn var_label(grid: &Vec<Vec<SudokuCell>>, var: &CnfVariable) -> (label: VarLabel)
    requires
        grid_wf(grid.deep_view()),
        labelable(*var, grid.deep_view()),
    ensures
        label.name@ == label_name(*var),
        label.position@ == label_position(*var),
        label.negated == label_negated(*var),
        label.underlined == label_underlined(grid.deep_view(), *var),
{
    let negated = match var {
        CnfVariable::Decimal { value, .. } => !(*value > 0),
        CnfVariable::Bit { value, .. } => !*value,
        CnfVariable::Equality { equal, .. } => !*equal,
    };
    VarLabel {
        name: name_of(var),
        position: position_of(var),
        negated,
        underlined: underlined_in(grid, var),
    }
}

/// The labels of the variables of one constraint, in order (drawn joined by
/// `v`).
pub fn clause_labels(grid: &Vec<Vec<SudokuCell>>, clause: &Vec<CnfVariable>) -> (labels: Vec<
    VarLabel,
>)
    requires
        grid_wf(grid.deep_view()),
        forall|i: int| 0 <= i < clause@.len() ==> labelable(#[trigger] clause@[i], grid.deep_view()),
    ensures
        labels@.len() == clause@.len(),
        forall|i: int|
            0 <= i < clause@.len() ==> {
                &&& (#[trigger] labels@[i]).name@ == label_name(clause@[i])
                &&& labels@[i].position@ == label_position(clause@[i])
                &&& labels@[i].negated == label_negated(clause@[i])
                &&& labels@[i].underlined == label_underlined(grid.deep_view(), clause@[i])
            },
{
    let mut labels: Vec<VarLabel> = Vec::new();
    let mut i: usize = 0;
    while i < clause.len()
        invariant
            i <= clause@.len(),
            grid_wf(grid.deep_view()),
            forall|j: int| 0 <= j < clause@.len() ==> labelable(#[trigger] clause@[j], grid.deep_view()),
            labels@.len() == i,
            forall|j: int|
                0 <= j < i ==> {
                    &&& (#[trigger] labels@[j]).name@ == label_name(clause@[j])
                    &&& labels@[j].position@ == label_position(clause@[j])
                    &&& labels@[j].negated == label_negated(clause@[j])
                    &&& labels@[j].underlined == label_underlined(grid.deep_view(), clause@[j])
                },
        decreases clause@.len() - i,
    {
        let label = var_label(grid, &clause[i]);
        labels.push(label);
        i += 1;
    }
    labels
}

} // verus!
