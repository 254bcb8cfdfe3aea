//! The little symbols drawn in a cell: first the symbols of the equality
//! variables, then the little numbers, written as text, sorted as text and
//! without repeats; every third symbol starts a new line, one-byte symbols
//! are padded, and a symbol is underlined when an underlined entry of the
//! cell has the same text. Also the tooltip that explains the equality
//! symbols of a cell.

use vstd::prelude::*;
use crate::cnf::CnfVariable;
use crate::grid_view::{CellModel, SudokuCell};
use crate::sudoku::{append_cell, int_text};

verus! {

/// Lexicographic order of texts, compared character by character from
/// position `i` on: the first differing character decides, and a text that
/// ends first is the smaller one.
pub open spec fn text_lt_from(a: Seq<char>, b: Seq<char>, i: int) -> bool
    decreases a.len() - i,
{
    if i >= a.len() {
        i < b.len()
    } else if i >= b.len() {
        false
    } else if a[i] != b[i] {
        (a[i] as int) < (b[i] as int)
    } else {
        text_lt_from(a, b, i + 1)
    }
}

/// `a` comes before `b` in the order of strings.
pub open spec fn text_lt(a: Seq<char>, b: Seq<char>) -> bool {
    text_lt_from(a, b, 0)
}

/// The texts are in strictly increasing order.
pub open spec fn strictly_sorted(s: Seq<Seq<char>>) -> bool {
    forall|i: int, j: int| 0 <= i < j < s.len() ==> text_lt(#[trigger] s[i], #[trigger] s[j])
}

/// No text comes before itself.
proof fn lemma_lt_irreflexive(a: Seq<char>, i: int)
    ensures
        !text_lt_from(a, a, i),
    decreases a.len() - i,
{
    if i < a.len() {
        lemma_lt_irreflexive(a, i + 1);
    }
}

/// The order of texts is transitive.
proof fn lemma_lt_transitive(a: Seq<char>, b: Seq<char>, c: Seq<char>, i: int)
    requires
        text_lt_from(a, b, i),
        text_lt_from(b, c, i),
    ensures
        text_lt_from(a, c, i),
    decreases a.len() - i,
{
    if i < a.len() && i < b.len() && i < c.len() && a[i] == b[i] && b[i] == c[i] {
        lemma_lt_transitive(a, b, c, i + 1);
    }
}

/// Two texts neither of which comes before the other agree from position
/// `i` on.
proof fn lemma_lt_total(a: Seq<char>, b: Seq<char>, i: int)
    requires
        0 <= i <= a.len(),
        i <= b.len(),
        !text_lt_from(a, b, i),
        !text_lt_from(b, a, i),
    ensures
        a.len() == b.len(),
        forall|j: int| i <= j < a.len() ==> a[j] == b[j],
    decreases a.len() - i,
{
    if i < a.len() && i < b.len() {
        lemma_lt_total(a, b, i + 1);
    }
}

/// Of two different texts, one comes before the other.
proof fn lemma_lt_trichotomy(a: Seq<char>, b: Seq<char>)
    requires
        a != b,
    ensures
        text_lt(a, b) || text_lt(b, a),
{
    if !text_lt(a, b) && !text_lt(b, a) {
        lemma_lt_total(a, b, 0);
        assert(a =~= b);
    }
}

/// Compares two strings in the order of strings.
fn text_less(a: &String, b: &String) -> (r: bool)
    ensures
        r == text_lt(a@, b@),
{
    let sa = a.as_str();
    let sb = b.as_str();
    let la = sa.unicode_len();
    let lb = sb.unicode_len();
    let mut i: usize = 0;
    while i < la && i < lb
        invariant
            sa@ == a@,
            sb@ == b@,
            la == a@.len(),
            lb == b@.len(),
            i <= la,
            i <= lb,
            text_lt(a@, b@) == text_lt_from(a@, b@, i as int),
        decreases la - i,
    {
        let ca = sa.get_char(i);
        let cb = sb.get_char(i);
        if ca != cb {
            return (ca as u32) < (cb as u32);
        }
        i += 1;
    }
    i >= la && i < lb
}

/// The texts of the little numbers of a cell.
pub open spec fn number_texts(littles: Seq<(i32, bool)>) -> Seq<Seq<char>> {
    littles.map_values(|p: (i32, bool)| int_text(p.0 as int))
}

/// The texts held by strings.
pub open spec fn strings_view(v: Seq<String>) -> Seq<Seq<char>> {
    v.map_values(|s: String| s@)
}

/// A number written as text.
fn number_text(n: i32) -> (s: String)
    ensures
        s@ == int_text(n as int),
{
    let mut s = String::new();
    append_cell(&mut s, Some(n));
    assert(s@ =~= int_text(n as int));
    s
}

/// Inserting a text into a strictly sorted list at the place where the
/// texts before it are smaller and the text after it is larger keeps the
/// list strictly sorted.
proof fn lemma_insert_sorted(s: Seq<Seq<char>>, p: int, t: Seq<char>)
    requires
        strictly_sorted(s),
        0 <= p <= s.len(),
        forall|k: int| 0 <= k < p ==> text_lt(#[trigger] s[k], t),
        p < s.len() ==> text_lt(t, s[p]),
    ensures
        strictly_sorted(s.insert(p, t)),
{
    let s2 = s.insert(p, t);
    assert forall|i: int, j: int| 0 <= i < j < s2.len() implies text_lt(
        #[trigger] s2[i],
        #[trigger] s2[j],
    ) by {
        if j < p {
        } else if j == p {
        } else if i < p {
            assert(s2[j] == s[j - 1]);
            if j - 1 > p {
                lemma_lt_transitive(t, s[p], s[j - 1], 0);
            }
            lemma_lt_transitive(s[i], t, s[j - 1], 0);
        } else if i == p {
            if j - 1 > p {
                lemma_lt_transitive(t, s[p], s[j - 1], 0);
            }
        } else {
        }
    }
}

/// Inserting an element anywhere in a sequence adds it to the set of the
/// sequence's elements.
proof fn lemma_insert_to_set(s: Seq<Seq<char>>, p: int, t: Seq<char>)
    requires
        0 <= p <= s.len(),
    ensures
        s.insert(p, t).to_set() == s.to_set().insert(t),
{
    let s2 = s.insert(p, t);
    assert forall|x: Seq<char>| s2.contains(x) <==> (s.contains(x) || x == t) by {
        if s2.contains(x) {
            let k = choose|k: int| 0 <= k < s2.len() && s2[k] == x;
            if k < p {
                assert(s[k] == x);
            } else if k > p {
                assert(s[k - 1] == x);
            }
        }
        if s.contains(x) {
            let k = choose|k: int| 0 <= k < s.len() && s[k] == x;
            if k < p {
                assert(s2[k] == x);
            } else {
                assert(s2[k + 1] == x);
            }
        }
        if x == t {
            assert(s2[p] == t);
        }
    }
    assert(s2.to_set() =~= s.to_set().insert(t));
}

/// The distinct texts of the little numbers, in increasing order, with a
/// number of each text.
fn sorted_numbers(littles: &Vec<(i32, bool)>) -> (r: (Vec<i32>, Vec<String>))
    ensures
        r.0@.len() == r.1@.len(),
        forall|k: int| 0 <= k < r.0@.len() ==> (#[trigger] r.1@[k])@ == int_text(r.0@[k] as int),
        strictly_sorted(strings_view(r.1@)),
        strings_view(r.1@).to_set() == number_texts(littles@).to_set(),
{
    let mut nums: Vec<i32> = Vec::new();
    let mut texts: Vec<String> = Vec::new();
    let mut i: usize = 0;
    assert(strings_view(texts@).to_set() =~= number_texts(littles@.take(0)).to_set());
    while i < littles.len()
        invariant
            i <= littles@.len(),
            nums@.len() == texts@.len(),
            forall|k: int| 0 <= k < nums@.len() ==> (#[trigger] texts@[k])@ == int_text(nums@[k] as int),
            strictly_sorted(strings_view(texts@)),
            strings_view(texts@).to_set() == number_texts(littles@.take(i as int)).to_set(),
        decreases littles@.len() - i,
    {
        let n = littles[i].0;
        let t = number_text(n);
        let ghost sv = strings_view(texts@);
        let mut p: usize = 0;
        while p < texts.len() && text_less(&texts[p], &t)
            invariant
                p <= texts@.len(),
                sv == strings_view(texts@),
                forall|k: int| 0 <= k < p ==> text_lt(#[trigger] sv[k], t@),
            decreases texts@.len() - p,
        {
            p += 1;
        }
        assert(number_texts(littles@.take(i + 1)) =~= number_texts(littles@.take(i as int)).push(
            t@,
        ));
        proof {
            number_texts(littles@.take(i as int)).lemma_push_to_set_commute(t@);
        }
        if p < texts.len() && texts[p] == t {
            assert(sv[p as int] == t@);
            assert(sv.contains(t@));
            assert(sv.to_set().contains(t@));
            assert(strings_view(texts@).to_set() =~= number_texts(littles@.take(i + 1)).to_set());
        } else {
            proof {
                if p < texts@.len() {
                    assert(!text_lt(sv[p as int], t@));
                    assert(sv[p as int] != t@);
                    lemma_lt_trichotomy(sv[p as int], t@);
                }
                lemma_insert_sorted(sv, p as int, t@);
            }
            let ghost before_nums = nums@;
            let ghost before_texts = texts@;
            nums.insert(p, n);
            texts.insert(p, t);
            assert(strings_view(texts@) =~= sv.insert(p as int, t@));
            proof {
                lemma_insert_to_set(sv, p as int, t@);
            }
            assert forall|k: int| 0 <= k < nums@.len() implies (#[trigger] texts@[k])@ == int_text(
                nums@[k] as int,
            ) by {
                if k > p {
                    assert(texts@[k] == before_texts[k - 1]);
                    assert(nums@[k] == before_nums[k - 1]);
                }
            }
            assert(strings_view(texts@).to_set() =~= number_texts(littles@.take(i + 1)).to_set());
        }
        i += 1;
    }
    assert(littles@.take(littles@.len() as int) =~= littles@);
    (nums, texts)
}

/// The text of a little symbol: the symbol of an equality variable, or a
/// little number.
#[derive(Clone, Copy, Debug, PartialEq, Eq, Structural)]
pub enum LittleText {
    Symbol(char),
    Number(i32),
}

/// How a symbol's text reads as a number, which decides its colour: a
/// positive number (blue), a number that is not positive (red), or no number
/// (yellow).
#[derive(Clone, Copy, Debug, PartialEq, Eq, Structural)]
pub enum SymbolKind {
    Positive,
    NotPositive,
    NotANumber,
}

/// A little symbol as it is laid out in a cell.
#[derive(Clone, Copy, Debug, PartialEq, Eq, Structural)]
pub struct LittleSymbol {
    pub text: LittleText,
    /// A line break comes before the symbol (three symbols to a line).
    pub line_break: bool,
    /// The symbol takes one byte and is preceded by spacing.
    pub padded: bool,
    /// An underlined entry of the cell has the same text.
    pub underlined: bool,
    pub kind: SymbolKind,
}

/// The characters of a symbol's text.
pub open spec fn text_of(t: LittleText) -> Seq<char> {
    match t {
        LittleText::Symbol(c) => seq![c],
        LittleText::Number(n) => int_text(n as int),
    }
}

/// The text takes one byte: an ASCII symbol, or a number of one digit.
pub open spec fn one_byte(t: LittleText) -> bool {
    match t {
        LittleText::Symbol(c) => (c as int) < 0x80,
        LittleText::Number(n) => 0 <= n <= 9,
    }
}

/// How the text reads as a number: a number is positive or not; a symbol
/// reads as a number only when it is a digit.
pub open spec fn text_kind(t: LittleText) -> SymbolKind {
    match t {
        LittleText::Number(n) => if n > 0 {
            SymbolKind::Positive
        } else {
            SymbolKind::NotPositive
        },
        LittleText::Symbol(c) => if 0x31 <= (c as int) <= 0x39 {
            SymbolKind::Positive
        } else if (c as int) == 0x30 {
            SymbolKind::NotPositive
        } else {
            SymbolKind::NotANumber
        },
    }
}

/// The texts of the underlined entries of a cell (an entry that is not
/// underlined gives the empty text): the little numbers first, then the
/// symbols of the equality variables.
pub open spec fn underlined_texts(cell: CellModel) -> Seq<Seq<char>> {
    cell.little_numbers.map_values(
        |p: (i32, bool)|
            if p.1 {
                int_text(p.0 as int)
            } else {
                Seq::<char>::empty()
            },
    ) + cell.eq_symbols.map_values(
        |e: (char, CnfVariable, bool)|
            if e.2 {
                seq![e.0]
            } else {
                Seq::<char>::empty()
            },
    )
}

/// The symbol with text `t` at position `i` of the cell's symbols.
pub open spec fn symbol_at(cell: CellModel, t: LittleText, i: int) -> LittleSymbol {
    LittleSymbol {
        text: t,
        line_break: i % 3 == 0 && i > 0,
        padded: one_byte(t),
        underlined: underlined_texts(cell).contains(text_of(t)),
        kind: text_kind(t),
    }
}

/// The texts of the symbols from position `from` on.
pub open spec fn texts_from(out: Seq<LittleSymbol>, from: int) -> Seq<Seq<char>> {
    out.subrange(from, out.len() as int).map_values(|s: LittleSymbol| text_of(s.text))
}

/// Whether a string holds the text of a symbol.
fn string_is(s: &String, t: LittleText) -> (b: bool)
    ensures
        b == (s@ == text_of(t)),
{
    match t {
        LittleText::Symbol(c) => {
            let st = s.as_str();
            let b = st.unicode_len() == 1 && st.get_char(0) == c;
            assert(b ==> s@ =~= text_of(t));
            b
        },
        LittleText::Number(n) => {
            let text = number_text(n);
            *s == text
        },
    }
}

/// Whether a one-character text is the text of a symbol.
fn char_is(c: char, t: LittleText) -> (b: bool)
    ensures
        b == (seq![c] == text_of(t)),
{
    match t {
        LittleText::Symbol(d) => {
            assert(c != d ==> seq![c][0] != text_of(t)[0]);
            c == d
        },
        LittleText::Number(n) => {
            let text = number_text(n);
            let st = text.as_str();
            let b = st.unicode_len() == 1 && st.get_char(0) == c;
            assert(b ==> seq![c] =~= text_of(t));
            assert(seq![c] == text_of(t) ==> text@.len() == 1 && text@[0] == c);
            b
        },
    }
}

/// Whether an underlined entry of the cell has the text of a symbol.
fn is_underlined(cell: &SudokuCell, t: LittleText) -> (b: bool)
    ensures
        b == underlined_texts(cell.deep_view()).contains(text_of(t)),
{
    let ghost u = underlined_texts(cell.deep_view());
    let ghost nl = cell.little_numbers@.len();
    let mut j: usize = 0;
    while j < cell.little_numbers.len()
        invariant
            j <= nl,
            nl == cell.little_numbers@.len(),
            u == underlined_texts(cell.deep_view()),
            forall|k: int| 0 <= k < j ==> u[k] != text_of(t),
        decreases nl - j,
    {
        let (n, underlined) = cell.little_numbers[j];
        let candidate = if underlined {
            number_text(n)
        } else {
            String::new()
        };
        assert(candidate@ == u[j as int]);
        if string_is(&candidate, t) {
            assert(u.contains(text_of(t)));
            return true;
        }
        j += 1;
    }
    let mut k: usize = 0;
    while k < cell.eq_symbols.len()
        invariant
            k <= cell.eq_symbols@.len(),
            nl == cell.little_numbers@.len(),
            u == underlined_texts(cell.deep_view()),
            u.len() == nl + cell.eq_symbols@.len(),
            forall|m: int| 0 <= m < nl + k ==> u[m] != text_of(t),
        decreases cell.eq_symbols@.len() - k,
    {
        let (c, _, underlined) = cell.eq_symbols[k];
        let found = if underlined {
            char_is(c, t)
        } else {
            string_is(&String::new(), t)
        };
        assert(u[nl + k] == if underlined {
            seq![c]
        } else {
            Seq::<char>::empty()
        });
        if found {
            assert(u.contains(text_of(t)));
            return true;
        }
        k += 1;
    }
    false
}

/// The symbol with text `t` at position `i`.
fn make_symbol(cell: &SudokuCell, t: LittleText, i: usize) -> (s: LittleSymbol)
    ensures
        s == symbol_at(cell.deep_view(), t, i as int),
{
    let padded = match t {
        LittleText::Symbol(c) => (c as u32) < 0x80,
        LittleText::Number(n) => 0 <= n && n <= 9,
    };
    let kind = match t {
        LittleText::Number(n) => if n > 0 {
            SymbolKind::Positive
        } else {
            SymbolKind::NotPositive
        },
        LittleText::Symbol(c) => {
            let code = c as u32;
            if 0x31 <= code && code <= 0x39 {
                SymbolKind::Positive
            } else if code == 0x30 {
                SymbolKind::NotPositive
            } else {
                SymbolKind::NotANumber
            }
        },
    };
    LittleSymbol {
        text: t,
        line_break: i % 3 == 0 && i > 0,
        padded,
        underlined: is_underlined(cell, t),
        kind,
    }
}

/// The little symbols of a cell, in the order they are drawn: the symbols
/// of the equality variables as they are stored, then the texts of the
/// little numbers in increasing string order without repeats.
pub fn little_symbols(cell: &SudokuCell) -> (out: Vec<LittleSymbol>)
    ensures
        cell.eq_symbols@.len() <= out@.len(),
        forall|i: int|
            0 <= i < cell.eq_symbols@.len() ==> (#[trigger] out@[i]).text == LittleText::Symbol(
                cell.eq_symbols@[i].0,
            ),
        forall|i: int|
            cell.eq_symbols@.len() <= i < out@.len() ==> (#[trigger] out@[i]).text is Number,
        strictly_sorted(texts_from(out@, cell.eq_symbols@.len() as int)),
        texts_from(out@, cell.eq_symbols@.len() as int).to_set() == number_texts(
            cell.little_numbers@,
        ).to_set(),
        forall|i: int|
            0 <= i < out@.len() ==> #[trigger] out@[i] == symbol_at(
                cell.deep_view(),
                out@[i].text,
                i,
            ),
{
    let ghost e = cell.eq_symbols@.len();
    let mut out: Vec<LittleSymbol> = Vec::new();
    let mut i: usize = 0;
    while i < cell.eq_symbols.len()
        invariant
            i <= e,
            e == cell.eq_symbols@.len(),
            out@.len() == i,
            forall|k: int| 0 <= k < i ==> (#[trigger] out@[k]).text == LittleText::Symbol(
                cell.eq_symbols@[k].0,
            ),
            forall|k: int|
                0 <= k < out@.len() ==> #[trigger] out@[k] == symbol_at(
                    cell.deep_view(),
                    out@[k].text,
                    k,
                ),
        decreases e - i,
    {
        let t = LittleText::Symbol(cell.eq_symbols[i].0);
        let s = make_symbol(cell, t, out.len());
        out.push(s);
        i += 1;
    }
    let (nums, texts) = sorted_numbers(&cell.little_numbers);
    let mut k: usize = 0;
    while k < nums.len()
        invariant
            k <= nums@.len(),
            nums@.len() == texts@.len(),
            e == cell.eq_symbols@.len(),
            out@.len() == e + k,
            forall|m: int| 0 <= m < nums@.len() ==> (#[trigger] texts@[m])@ == int_text(nums@[m] as int),
            forall|m: int| 0 <= m < e ==> (#[trigger] out@[m]).text == LittleText::Symbol(
                cell.eq_symbols@[m].0,
            ),
            forall|m: int| 0 <= m < k ==> (#[trigger] out@[e + m]).text == LittleText::Number(nums@[m]),
            forall|m: int|
                0 <= m < out@.len() ==> #[trigger] out@[m] == symbol_at(
                    cell.deep_view(),
                    out@[m].text,
                    m,
                ),
        decreases nums@.len() - k,
    {
        let t = LittleText::Number(nums[k]);
        let s = make_symbol(cell, t, out.len());
        out.push(s);
        assert(out@[e + k as int] == s);
        k += 1;
    }
    proof {
        assert(texts_from(out@, e as int) =~= strings_view(texts@)) by {
            assert forall|m: int| 0 <= m < nums@.len() implies #[trigger] texts_from(out@, e as int)[m]
                == strings_view(texts@)[m] by {
                assert(out@[e + m].text == LittleText::Number(nums@[m]));
                assert(texts@[m]@ == int_text(nums@[m] as int));
            }
        }
        assert forall|m: int| e <= m < out@.len() implies (#[trigger] out@[m]).text is Number by {
            assert(out@[e + (m - e)].text == LittleText::Number(nums@[m - e]));
        }
    }
    out
}

// ------------------------------------------------------------------ tooltip

/// `String::push`: the character is appended.
#[verifier::external_body]
fn push_char(text: &mut String, c: char)
    ensures
        final(text)@ == old(text)@.push(c),
{
    text.push(c)
}

/// Appends a literal string.
fn append_str(text: &mut String, s: &str)
    ensures
        final(text)@ == old(text)@ + s@,
{
    text.append(s);
}

/// The numbers of a list separated by `, `.
pub open spec fn joined(v: Seq<i32>) -> Seq<char>
    decreases v.len(),
{
    if v.len() == 0 {
        Seq::empty()
    } else if v.len() == 1 {
        int_text(v[0] as int)
    } else {
        joined(v.drop_last()) + ", "@ + int_text(v.last() as int)
    }
}

/// A list of numbers as `{:?}` writes it: `[1, 3, 5]`.
pub open spec fn list_text(v: Seq<i32>) -> Seq<char> {
    seq!['['] + joined(v) + seq![']']
}

/// Appends a list of numbers as `{:?}` writes it.
fn append_list(text: &mut String, v: &Vec<i32>)
    ensures
        final(text)@ == old(text)@ + list_text(v@),
{
    proof {
        reveal_strlit("[");
        reveal_strlit("]");
    }
    append_str(text, "[");
    let ghost start = text@;
    let mut i: usize = 0;
    while i < v.len()
        invariant
            i <= v@.len(),
            text@ == start + joined(v@.take(i as int)),
        decreases v@.len() - i,
    {
        if i > 0 {
            append_str(text, ", ");
        }
        append_cell(text, Some(v[i]));
        assert(v@.take(i + 1).drop_last() =~= v@.take(i as int));
        if i == 0 {
            assert(joined(v@.take(1)) == int_text(v@[0] as int));
        }
        assert(text@ =~= start + joined(v@.take(i + 1)));
        i += 1;
    }
    assert(v@.take(v@.len() as int) =~= v@);
    append_str(text, "]");
    assert(text@ =~= old(text)@ + list_text(v@));
}

/// What the tooltip says of an equality variable marked with `c`, whose
/// bit splits the values into the groups `g1` (bit set) and `g2` (bit clear).
pub open spec fn eq_sentence(c: char, equal: bool, g1: Seq<i32>, g2: Seq<i32>) -> Seq<char> {
    if equal {
        "The values of the cells marked with "@ + seq![c] + " belong to the same set,\n either "@
            + list_text(g1) + " or "@ + list_text(g2)
    } else {
        "The value of one cell marked with "@ + seq![c] + " belongs to \n"@ + list_text(g1)
            + " and the other to "@ + list_text(g2)
    }
}

/// The part of the tooltip for symbol `i` of the cell: the sentence of an
/// equality variable, followed by `OR` when more symbols follow.
pub open spec fn tooltip_piece(syms: Seq<(char, CnfVariable, bool)>, i: int) -> Seq<char> {
    match syms[i].1 {
        CnfVariable::Equality { bit_index, equal, .. } => eq_sentence(
            syms[i].0,
            equal,
            crate::cnf::possible_upto(9, bit_index, true),
            crate::cnf::possible_upto(9, bit_index, false),
        ) + if i + 1 < syms.len() {
            "\n\nOR\n\n"@
        } else {
            Seq::empty()
        },
        _ => Seq::empty(),
    }
}

pub open spec fn tooltip_piece_fn(syms: Seq<(char, CnfVariable, bool)>) -> spec_fn(int) -> Seq<char> {
    |i: int| tooltip_piece(syms, i)
}

/// The tooltip of a cell: the parts of its symbols, in order.
pub open spec fn tooltip_text(syms: Seq<(char, CnfVariable, bool)>) -> Seq<char> {
    crate::seq_util::concat_map(syms.len() as int, tooltip_piece_fn(syms))
}

/// The bit index of every equality variable of the cell's symbols can be
/// shifted by.
pub open spec fn symbols_bits_ok(syms: Seq<(char, CnfVariable, bool)>) -> bool {
    forall|i: int| 0 <= i < syms.len() ==> crate::cnf::bit_index_ok(#[trigger] syms[i].1)
}

/// The text of the tooltip explaining the equality variables of a cell.
pub fn eq_tooltip_text(cell: &SudokuCell) -> (text: String)
    requires
        symbols_bits_ok(cell.eq_symbols@),
    ensures
        text@ == tooltip_text(cell.eq_symbols@),
{
    let ghost syms = cell.eq_symbols@;
    let mut text = String::new();
    let mut i: usize = 0;
    while i < cell.eq_symbols.len()
        invariant
            i <= syms.len(),
            syms == cell.eq_symbols@,
            symbols_bits_ok(syms),
            text@ == crate::seq_util::concat_map(i as int, tooltip_piece_fn(syms)),
        decreases syms.len() - i,
    {
        let ghost before = text@;
        let (c, variable, _) = cell.eq_symbols[i];
        assert(crate::cnf::bit_index_ok(syms[i as int].1));
        if let CnfVariable::Equality { equal, .. } = variable {
            let (group1, group2) = variable.get_possible_groups();
            if equal {
                append_str(&mut text, "The values of the cells marked with ");
                push_char(&mut text, c);
                append_str(&mut text, " belong to the same set,\n either ");
                append_list(&mut text, &group1);
                append_str(&mut text, " or ");
                append_list(&mut text, &group2);
            } else {
                append_str(&mut text, "The value of one cell marked with ");
                push_char(&mut text, c);
                append_str(&mut text, " belongs to \n");
                append_list(&mut text, &group1);
                append_str(&mut text, " and the other to ");
                append_list(&mut text, &group2);
            }
            if i + 1 < cell.eq_symbols.len() {
                append_str(&mut text, "\n\nOR\n\n");
            }
        }
        proof {
            crate::seq_util::lemma_concat_map_step(Seq::<char>::empty(), i as int, tooltip_piece_fn(syms));
            assert(Seq::<char>::empty() + crate::seq_util::concat_map(i as int, tooltip_piece_fn(syms))
                =~= crate::seq_util::concat_map(i as int, tooltip_piece_fn(syms)));
            assert(Seq::<char>::empty() + crate::seq_util::concat_map(i + 1, tooltip_piece_fn(syms))
                =~= crate::seq_util::concat_map(i + 1, tooltip_piece_fn(syms)));
            assert(text@ =~= before + tooltip_piece(syms, i as int));
        }
        i += 1;
    }
    text
}

/// The symbols of a cell are laid out three to a line: every third symbol
/// (positions 3, 6, 9, ...) starts a new line, and no other does.
pub proof fn lemma_three_symbols_per_line(cell: CellModel, t: LittleText, k: int)
    requires
        k >= 0,
    ensures
        !symbol_at(cell, t, 0).line_break,
        symbol_at(cell, t, 3 * k + 3).line_break,
        !symbol_at(cell, t, 3 * k + 1).line_break,
        !symbol_at(cell, t, 3 * k + 2).line_break,
{
    assert((3 * k + 3) % 3 == 0) by (nonlinear_arith)
        requires
            k >= 0,
    ;
    assert((3 * k + 1) % 3 == 1) by (nonlinear_arith)
        requires
            k >= 0,
    ;
    assert((3 * k + 2) % 3 == 2) by (nonlinear_arith)
        requires
            k >= 0,
    ;
}

} // verus!
