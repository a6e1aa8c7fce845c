//! Page labels: the labelling ranges of the catalog's `/PageLabels` number
//! tree, and the label each page shows.

use crate::object;
use crate::object::{Dict, ObjectV};
use crate::source;
use crate::source::{ObjectSource, SourceV};
use crate::text;
use crate::tree;
use crate::tree::{dict_in_catalog, resolved_dict, Entries};
use vstd::prelude::*;
use vstd::string::*;

verus! {

/// A page-numbering style, the `/S` of a page label dictionary.
#[derive(Debug, Clone, Copy, PartialEq, Eq, Structural)]
pub enum LabelStyle {
    /// Arabic numerals: 1, 2, 3.
    Decimal,
    /// Uppercase Roman numerals: I, II, III.
    RomanUpper,
    /// Lowercase Roman numerals: i, ii, iii.
    RomanLower,
    /// Uppercase letters: A to Z, then AA to ZZ, and so on.
    LettersUpper,
    /// Lowercase letters: a to z, then aa to zz, and so on.
    LettersLower,
}

/// The `/S` name of a style.
pub open spec fn style_code(style: LabelStyle) -> Seq<char> {
    match style {
        LabelStyle::Decimal => "D"@,
        LabelStyle::RomanUpper => "R"@,
        LabelStyle::RomanLower => "r"@,
        LabelStyle::LettersUpper => "A"@,
        LabelStyle::LettersLower => "a"@,
    }
}

/// The style an `/S` name selects.
pub open spec fn style_of(code: Seq<char>) -> Option<LabelStyle> {
    if code == "D"@ {
        Some(LabelStyle::Decimal)
    } else if code == "R"@ {
        Some(LabelStyle::RomanUpper)
    } else if code == "r"@ {
        Some(LabelStyle::RomanLower)
    } else if code == "A"@ {
        Some(LabelStyle::LettersUpper)
    } else if code == "a"@ {
        Some(LabelStyle::LettersLower)
    } else {
        None
    }
}

/// A style's name selects that style.
pub proof fn style_codes_are_faithful(style: LabelStyle)
    ensures
        style_of(style_code(style)) == Some(style),
{
    reveal_strlit("D");
    reveal_strlit("R");
    reveal_strlit("r");
    reveal_strlit("A");
    reveal_strlit("a");
    assert("D"@[0] == 'D' && "R"@[0] == 'R' && "r"@[0] == 'r' && "A"@[0] == 'A' && "a"@[0] == 'a');
}

/// `c` repeated `n` times.
pub open spec fn repeated(c: char, n: nat) -> Seq<char> {
    Seq::new(n, |i: int| c)
}

/// A decimal digit in Roman numerals, from the letters for one, five and ten.
pub open spec fn roman_digit(digit: nat, one: char, five: char, ten: char) -> Seq<char> {
    if digit == 9 {
        seq![one, ten]
    } else if digit >= 5 {
        seq![five] + repeated(one, (digit - 5) as nat)
    } else if digit == 4 {
        seq![one, five]
    } else {
        repeated(one, digit)
    }
}

/// A number in uppercase Roman numerals: an M for every thousand, then its
/// hundreds, tens and units.
pub open spec fn roman_upper(n: nat) -> Seq<char> {
    repeated('M', n / 1000) + roman_digit(n / 100 % 10, 'C', 'D', 'M') + roman_digit(
        n / 10 % 10,
        'X',
        'L',
        'C',
    ) + roman_digit(n % 10, 'I', 'V', 'X')
}

/// A number in lowercase Roman numerals.
pub open spec fn roman_lower(n: nat) -> Seq<char> {
    repeated('m', n / 1000) + roman_digit(n / 100 % 10, 'c', 'd', 'm') + roman_digit(
        n / 10 % 10,
        'x',
        'l',
        'c',
    ) + roman_digit(n % 10, 'i', 'v', 'x')
}

/// A number in letters: the letter at position `(n - 1) % 26`, once for every
/// 26 the number spans. Nothing for 0.
pub open spec fn in_letters(n: nat, first: char) -> Seq<char> {
    if n == 0 {
        Seq::empty()
    } else {
        repeated((first as int + (n - 1) % 26) as char, ((n - 1) / 26 + 1) as nat)
    }
}

/// A number in a style.
pub open spec fn numeral_of(style: LabelStyle, n: nat) -> Seq<char> {
    match style {
        LabelStyle::Decimal => text::decimal_numeral(n),
        LabelStyle::RomanUpper => roman_upper(n),
        LabelStyle::RomanLower => roman_lower(n),
        LabelStyle::LettersUpper => in_letters(n, 'A'),
        LabelStyle::LettersLower => in_letters(n, 'a'),
    }
}

/// The number 0 has no Roman or letter form.
pub proof fn zero_has_only_a_decimal_form(style: LabelStyle)
    requires
        style != LabelStyle::Decimal,
    ensures
        numeral_of(style, 0) == Seq::<char>::empty(),
{
    assert(numeral_of(style, 0) =~= Seq::<char>::empty());
}

/// What a Roman letter stands for.
pub open spec fn letter_value(c: char) -> int {
    if c == 'M' {
        1000
    } else if c == 'D' {
        500
    } else if c == 'C' {
        100
    } else if c == 'L' {
        50
    } else if c == 'X' {
        10
    } else if c == 'V' {
        5
    } else if c == 'I' {
        1
    } else {
        0
    }
}

/// The number that Roman letters write when they are read subtractively: a
/// letter before a greater one is taken away, any other is added.
pub open spec fn roman_value(letters: Seq<char>) -> int
    decreases letters.len(),
{
    if letters.len() == 0 {
        0
    } else {
        let rest = roman_value(letters.skip(1));
        let value = letter_value(letters[0]);
        if letters.len() > 1 && value < letter_value(letters[1]) {
            rest - value
        } else {
            rest + value
        }
    }
}

/// Letters written behind no smaller one are read by themselves.
proof fn lemma_value_of_both(a: Seq<char>, b: Seq<char>)
    requires
        a.len() > 0 && b.len() > 0 ==> letter_value(a.last()) >= letter_value(b[0]),
    ensures
        roman_value(a + b) == roman_value(a) + roman_value(b),
    decreases a.len(),
{
    if a.len() == 0 {
        assert(a + b =~= b);
    } else {
        lemma_value_of_both(a.skip(1), b);
        assert((a + b).skip(1) =~= a.skip(1) + b);
        if a.len() == 1 {
            assert(a.skip(1) =~= Seq::<char>::empty());
        } else {
            assert((a + b)[1] == a[1]);
        }
    }
}

/// Equal letters add up.
proof fn lemma_value_of_repeated(c: char, n: nat)
    ensures
        roman_value(repeated(c, n)) == n * letter_value(c),
    decreases n,
{
    if n > 0 {
        lemma_value_of_repeated(c, (n - 1) as nat);
        assert(repeated(c, n).skip(1) =~= repeated(c, (n - 1) as nat));
        assert(n * letter_value(c) == (n - 1) * letter_value(c) + letter_value(c))
            by (nonlinear_arith)
            requires
                n > 0,
        ;
    } else {
        assert(repeated(c, n).len() == 0);
    }
}

/// One letter is worth its value.
proof fn lemma_value_of_letter(c: char)
    ensures
        roman_value(seq![c]) == letter_value(c),
{
    assert(seq![c].skip(1) =~= Seq::<char>::empty());
    assert(roman_value(Seq::<char>::empty()) == 0);
}

/// A digit stands for its multiple of the letter for one, and begins with no
/// letter greater than the one for five.
proof fn lemma_value_of_digit(digit: nat, one: char, five: char, ten: char)
    requires
        digit < 10,
        letter_value(one) > 0,
        letter_value(five) == 5 * letter_value(one),
        letter_value(ten) == 10 * letter_value(one),
    ensures
        ({
            let letters = roman_digit(digit, one, five, ten);
            &&& roman_value(letters) == digit * letter_value(one)
            &&& letters.len() > 0 ==> letter_value(letters[0]) <= 5 * letter_value(one)
            &&& letters.len() > 0 ==> letter_value(letters.last()) >= letter_value(one)
        }),
{
    let letters = roman_digit(digit, one, five, ten);
    if digit == 9 || digit == 4 {
        let great = letters[1];
        assert(letters.skip(1) =~= seq![great]);
        lemma_value_of_letter(great);
    } else if digit >= 5 {
        let rest = repeated(one, (digit - 5) as nat);
        lemma_value_of_repeated(one, (digit - 5) as nat);
        lemma_value_of_both(seq![five], rest);
        lemma_value_of_letter(five);
        assert((digit - 5) * letter_value(one) + 5 * letter_value(one) == digit * letter_value(
            one,
        )) by (nonlinear_arith);
    } else {
        lemma_value_of_repeated(one, digit);
    }
}

/// A number is made of its thousands, hundreds, tens and units.
proof fn lemma_places(n: nat)
    ensures
        n == n / 1000 * 1000 + n / 100 % 10 * 100 + n / 10 % 10 * 10 + n % 10,
{
    let tens = n / 10;
    let hundreds = tens / 10;
    assert(n / 100 == hundreds);
    assert(n / 1000 == hundreds / 10);
}

/// What the hundreds, tens and units of a number write.
proof fn lemma_value_below_thousand(hundreds: nat, tens: nat, units: nat)
    requires
        hundreds < 10,
        tens < 10,
        units < 10,
    ensures
        ({
            let letters = roman_digit(hundreds, 'C', 'D', 'M') + (roman_digit(tens, 'X', 'L', 'C')
                + roman_digit(units, 'I', 'V', 'X'));
            &&& roman_value(letters) == 100 * hundreds + 10 * tens + units
            &&& letters.len() > 0 ==> letter_value(letters[0]) <= 500
        }),
{
    let h = roman_digit(hundreds, 'C', 'D', 'M');
    let t = roman_digit(tens, 'X', 'L', 'C');
    let u = roman_digit(units, 'I', 'V', 'X');
    lemma_value_of_digit(hundreds, 'C', 'D', 'M');
    lemma_value_of_digit(tens, 'X', 'L', 'C');
    lemma_value_of_digit(units, 'I', 'V', 'X');
    lemma_value_of_both(t, u);
    let low = t + u;
    assert(low.len() > 0 ==> letter_value(low[0]) <= 50) by {
        if t.len() > 0 {
            assert(low[0] == t[0]);
        } else if u.len() > 0 {
            assert(low[0] == u[0]);
        }
    }
    lemma_value_of_both(h, low);
    if h.len() > 0 {
        assert((h + low)[0] == h[0]);
    } else if low.len() > 0 {
        assert((h + low)[0] == low[0]);
    }
}

/// A Roman numeral read subtractively is the number it was made from.
pub proof fn roman_numerals_read_back(n: nat)
    ensures
        roman_value(numeral_of(LabelStyle::RomanUpper, n)) == n,
{
    let thousands = repeated('M', n / 1000);
    let below = roman_digit(n / 100 % 10, 'C', 'D', 'M') + (roman_digit(
        n / 10 % 10,
        'X',
        'L',
        'C',
    ) + roman_digit(n % 10, 'I', 'V', 'X'));
    lemma_value_of_repeated('M', n / 1000);
    lemma_value_below_thousand(n / 100 % 10, n / 10 % 10, n % 10);
    lemma_value_of_both(thousands, below);
    assert(roman_upper(n) =~= thousands + below);
    lemma_places(n);
}

/// How the letters of a digit may stand.
proof fn lemma_digit_shape(digit: nat, one: char, five: char, ten: char)
    requires
        digit < 10,
        one != five,
        five != ten,
        one != ten,
    ensures
        ({
            let d = roman_digit(digit, one, five, ten);
            &&& d.len() <= 4
            &&& d.len() == 4 ==> d[0] == five
            &&& forall|i: int|
                0 <= i < d.len() ==> (#[trigger] d[i] == one || d[i] == five || d[i] == ten)
            &&& forall|i: int|
                0 <= i < d.len() && #[trigger] d[i] == ten ==> i == 1 && d.len() == 2 && d[0] == one
            &&& forall|i: int, j: int|
                0 <= i < j < d.len() && #[trigger] d[i] == five ==> #[trigger] d[j] != five
        }),
{
}

/// Where the letters of a Roman numeral come from.
proof fn lemma_letter(n: nat, i: int)
    requires
        0 <= i < roman_upper(n).len(),
    ensures
        ({
            let hundreds = roman_digit(n / 100 % 10, 'C', 'D', 'M');
            let tens = roman_digit(n / 10 % 10, 'X', 'L', 'C');
            let units = roman_digit(n % 10, 'I', 'V', 'X');
            let a = (n / 1000) as int;
            let b = a + hundreds.len();
            let c = b + tens.len();
            &&& roman_upper(n).len() == c + units.len()
            &&& roman_upper(n)[i] == (if i < a {
                'M'
            } else if i < b {
                hundreds[i - a]
            } else if i < c {
                tens[i - b]
            } else {
                units[i - c]
            })
        }),
{
}

/// In a Roman numeral no letter but M stands more than three times in a row,
/// and D, L and V stand in it at most once each.
pub proof fn roman_letters_are_not_heaped(n: nat)
    ensures
        ({
            let letters = numeral_of(LabelStyle::RomanUpper, n);
            &&& forall|i: int|
                0 <= i && i + 3 < letters.len() && #[trigger] letters[i] != 'M' ==> !(letters[i]
                    == letters[i + 1] && letters[i] == letters[i + 2] && letters[i] == letters[i
                    + 3])
            &&& forall|i: int, j: int|
                0 <= i < j < letters.len() && #[trigger] letters[i] == #[trigger] letters[j] ==> {
                    &&& letters[i] != 'D'
                    &&& letters[i] != 'L'
                    &&& letters[i] != 'V'
                }
        }),
{
    let letters = roman_upper(n);
    let hundreds = roman_digit(n / 100 % 10, 'C', 'D', 'M');
    let tens = roman_digit(n / 10 % 10, 'X', 'L', 'C');
    let units = roman_digit(n % 10, 'I', 'V', 'X');
    lemma_digit_shape(n / 100 % 10, 'C', 'D', 'M');
    lemma_digit_shape(n / 10 % 10, 'X', 'L', 'C');
    lemma_digit_shape(n % 10, 'I', 'V', 'X');
    let a = (n / 1000) as int;
    let b = a + hundreds.len();
    let c = b + tens.len();
    assert forall|i: int, j: int|
        0 <= i < j < letters.len() && #[trigger] letters[i] == #[trigger] letters[j] implies {
        &&& letters[i] != 'D'
        &&& letters[i] != 'L'
        &&& letters[i] != 'V'
    } by {
        lemma_letter(n, i);
        lemma_letter(n, j);
    }
    assert forall|i: int|
        0 <= i && i + 3 < letters.len() && #[trigger] letters[i] != 'M' implies !(letters[i]
        == letters[i + 1] && letters[i] == letters[i + 2] && letters[i] == letters[i + 3]) by {
        lemma_letter(n, i);
        lemma_letter(n, i + 1);
        lemma_letter(n, i + 2);
        lemma_letter(n, i + 3);
    }
}

/// A number of at least 1 in letters is one letter of the alphabet, as often
/// as the number spans alphabets.
pub proof fn letters_count_alphabets(n: nat)
    requires
        n >= 1,
    ensures
        numeral_of(LabelStyle::LettersUpper, n) == repeated(
            (0x41 + (n - 1) % 26) as char,
            ((n - 1) / 26 + 1) as nat,
        ),
{
}

/// A capital letter of the alphabet made small.
pub open spec fn lower_case(c: char) -> char {
    if 'A' <= c <= 'Z' {
        (c as int + 0x20) as char
    } else {
        c
    }
}

/// The lowercase styles give the lowercase of what the uppercase ones give.
pub proof fn lowercase_styles_follow_the_uppercase_ones(n: nat)
    ensures
        numeral_of(LabelStyle::RomanLower, n) == numeral_of(
            LabelStyle::RomanUpper,
            n,
        ).map_values(|c: char| lower_case(c)),
        numeral_of(LabelStyle::LettersLower, n) == numeral_of(
            LabelStyle::LettersUpper,
            n,
        ).map_values(|c: char| lower_case(c)),
{
    assert(roman_lower(n) =~= roman_upper(n).map_values(|c: char| lower_case(c)));
    assert(in_letters(n, 'a') =~= in_letters(n, 'A').map_values(|c: char| lower_case(c)));
}

/// Appends `c` to `out`, `n` times.
fn push_repeated(out: &mut String, c: char, n: u32)
    ensures
        final(out)@ == old(out)@ + repeated(c, n as nat),
{
    let ghost before = out@;
    let mut i: u32 = 0;
    assert(before + repeated(c, 0) =~= before);
    while i < n
        invariant
            i <= n,
            out@ == before + repeated(c, i as nat),
        decreases n - i,
    {
        out.push(c);
        assert(before + repeated(c, (i + 1) as nat) =~= (before + repeated(c, i as nat)).push(c));
        i += 1;
    }
}

/// Appends a decimal digit in Roman numerals.
fn push_roman_digit(out: &mut String, digit: u32, one: char, five: char, ten: char)
    requires
        digit < 10,
    ensures
        final(out)@ == old(out)@ + roman_digit(digit as nat, one, five, ten),
{
    let ghost before = out@;
    if digit == 9 {
        out.push(one);
        out.push(ten);
    } else if digit >= 5 {
        out.push(five);
        push_repeated(out, one, digit - 5);
    } else if digit == 4 {
        out.push(one);
        out.push(five);
    } else {
        push_repeated(out, one, digit);
    }
    assert(out@ =~= before + roman_digit(digit as nat, one, five, ten));
}

/// `n` as a Roman numeral in subtractive form; thousands past 3999 keep adding
/// M. Empty for 0.
fn roman(n: u32, upper: bool) -> (out: String)
    ensures
        out@ == if upper {
            roman_upper(n as nat)
        } else {
            roman_lower(n as nat)
        },
{
    let mut out = String::new();
    if upper {
        push_repeated(&mut out, 'M', n / 1000);
        push_roman_digit(&mut out, n / 100 % 10, 'C', 'D', 'M');
        push_roman_digit(&mut out, n / 10 % 10, 'X', 'L', 'C');
        push_roman_digit(&mut out, n % 10, 'I', 'V', 'X');
        assert(out@ =~= roman_upper(n as nat));
    } else {
        push_repeated(&mut out, 'm', n / 1000);
        push_roman_digit(&mut out, n / 100 % 10, 'c', 'd', 'm');
        push_roman_digit(&mut out, n / 10 % 10, 'x', 'l', 'c');
        push_roman_digit(&mut out, n % 10, 'i', 'v', 'x');
        assert(out@ =~= roman_lower(n as nat));
    }
    out
}

/// `n` as letters: the letter at position `(n - 1) % 26` from `first`,
/// repeated once for every 26 the number spans. Empty for 0.
fn letters(n: u32, first: u8) -> (out: String)
    requires
        first <= 0x60 + 26,
    ensures
        out@ == in_letters(n as nat, first as char),
{
    let mut out = String::new();
    if n > 0 {
        let letter = (first + ((n - 1) % 26) as u8) as char;
        push_repeated(&mut out, letter, (n - 1) / 26 + 1);
    }
    assert(out@ =~= in_letters(n as nat, first as char));
    out
}

impl LabelStyle {
    /// The style's `/S` name.
    pub fn code(self) -> (out: &'static str)
        ensures
            out@ == style_code(self),
    {
        match self {
            LabelStyle::Decimal => "D",
            LabelStyle::RomanUpper => "R",
            LabelStyle::RomanLower => "r",
            LabelStyle::LettersUpper => "A",
            LabelStyle::LettersLower => "a",
        }
    }

    /// The style an `/S` name selects; `None` for any other name.
    pub fn from_code(code: &str) -> (out: Option<LabelStyle>)
        ensures
            out == style_of(code@),
    {
        if text::same(code, "D") {
            Some(LabelStyle::Decimal)
        } else if text::same(code, "R") {
            Some(LabelStyle::RomanUpper)
        } else if text::same(code, "r") {
            Some(LabelStyle::RomanLower)
        } else if text::same(code, "A") {
            Some(LabelStyle::LettersUpper)
        } else if text::same(code, "a") {
            Some(LabelStyle::LettersLower)
        } else {
            None
        }
    }

    /// The numeric portion of a label for the number `n`, which starts at
    /// 1: Roman numerals in subtractive form, letters as one letter for 1
    /// to 26 and the same letter repeated once more for every further 26.
    /// The number 0 has no Roman or letter form and gives an empty string.
    pub fn numeral(self, n: u32) -> (out: String)
        ensures
            out@ == numeral_of(self, n as nat),
    {
        match self {
            LabelStyle::Decimal => text::decimal(n as u64),
            LabelStyle::RomanUpper => roman(n, true),
            LabelStyle::RomanLower => roman(n, false),
            LabelStyle::LettersUpper => letters(n, 0x41),
            LabelStyle::LettersLower => letters(n, 0x61),
        }
    }
}

/// One labelling range: every page from `first_page` up to the next
/// range's first page shows `prefix` followed by the numeral of
/// `start_at + (page - first_page)` in `style`; without a style the label is
/// the prefix alone.
#[derive(Debug, Clone, PartialEq)]
pub struct PageLabel {
    /// 0-based page index where this range begins.
    pub first_page: usize,
    /// Numbering style, the `/S` entry; `None` shows only `prefix`.
    pub style: Option<LabelStyle>,
    /// Text before every number in the range, the `/P` entry.
    pub prefix: Option<String>,
    /// The number shown on `first_page`, the `/St` entry; 1 by default.
    pub start_at: u32,
}

/// What a labelling range is.
#[verifier::ext_equal]
pub struct PageLabelV {
    pub first_page: int,
    pub style: Option<LabelStyle>,
    pub prefix: Option<Seq<char>>,
    pub start_at: u32,
}

impl View for PageLabel {
    type V = PageLabelV;

    open spec fn view(&self) -> PageLabelV {
        PageLabelV {
            first_page: self.first_page as int,
            style: self.style,
            prefix: tree::string_opt(self.prefix),
            start_at: self.start_at,
        }
    }
}

/// The label that a range gives the page at `index`. A number too large for
/// 32 bits shows as the largest of them.
pub open spec fn label_of(range: PageLabelV, index: int) -> Seq<char> {
    let prefix = match range.prefix {
        Some(prefix) => prefix,
        None => Seq::empty(),
    };
    match range.style {
        Some(style) => {
            let offset = if index < range.first_page {
                0
            } else {
                index - range.first_page
            };
            let number = range.start_at + offset;
            prefix + numeral_of(
                style,
                (if number > u32::MAX {
                    u32::MAX as int
                } else {
                    number
                }) as nat,
            )
        },
        None => prefix,
    }
}

impl PageLabel {
    /// The label of the page at `index`, which must lie in this range.
    pub fn label(&self, index: usize) -> (out: String)
        ensures
            out@ == label_of(self@, index as int),
    {
        let mut label = match &self.prefix {
            Some(prefix) => prefix.clone(),
            None => String::new(),
        };
        if let Some(style) = self.style {
            let distance: usize = if index < self.first_page {
                0
            } else {
                index - self.first_page
            };
            let room: u32 = u32::MAX - self.start_at;
            let number: u32 = if distance > room as usize {
                u32::MAX
            } else {
                self.start_at + distance as u32
            };
            let numeral = style.numeral(number);
            label.append(numeral.as_str());
        }
        label
    }
}

/// What labelling ranges in a row are.
pub open spec fn ranges_view(ranges: Seq<PageLabel>) -> Seq<PageLabelV> {
    Seq::new(ranges.len(), |i: int| ranges[i]@)
}

/// The labelling range that begins at a page.
pub open spec fn range_of(src: SourceV, first_page: int, d: Map<Seq<char>, ObjectV>) -> PageLabelV {
    PageLabelV {
        first_page,
        style: match tree::entry_name(src, d, "S"@) {
            Some(code) => style_of(code),
            None => None,
        },
        prefix: tree::entry_text(src, d, "P"@),
        start_at: match tree::entry_u32(src, d, "St"@) {
            Some(start) => if start >= 1 {
                start
            } else {
                1
            },
            None => 1,
        },
    }
}

/// The labelling ranges among the entries of a number tree, in order.
pub open spec fn ranges_in(src: SourceV, entries: Seq<(i64, ObjectV)>) -> Seq<PageLabelV>
    decreases entries.len(),
{
    if entries.len() == 0 {
        Seq::empty()
    } else {
        let before = ranges_in(src, entries.drop_last());
        let (first_page, value) = entries.last();
        match tree::dict_at(src, value) {
            Some(d) => if 0 <= first_page <= usize::MAX {
                before.push(range_of(src, first_page as int, d))
            } else {
                before
            },
            None => before,
        }
    }
}

/// A range put among sorted ones, behind those that begin no later.
pub open spec fn placed(sorted: Seq<PageLabelV>, range: PageLabelV) -> Seq<PageLabelV>
    decreases sorted.len(),
{
    if sorted.len() == 0 || sorted.last().first_page <= range.first_page {
        sorted.push(range)
    } else {
        placed(sorted.drop_last(), range).push(sorted.last())
    }
}

/// Ranges sorted by first page, those that begin on one page in their order.
pub open spec fn by_first_page(ranges: Seq<PageLabelV>) -> Seq<PageLabelV>
    decreases ranges.len(),
{
    if ranges.len() == 0 {
        Seq::empty()
    } else {
        placed(by_first_page(ranges.drop_last()), ranges.last())
    }
}

proof fn lemma_placed(sorted: Seq<PageLabelV>, range: PageLabelV, at: int)
    requires
        0 <= at <= sorted.len(),
        at > 0 ==> sorted[at - 1].first_page <= range.first_page,
        forall|j: int| at <= j < sorted.len() ==> (#[trigger] sorted[j]).first_page
            > range.first_page,
    ensures
        placed(sorted, range) == sorted.insert(at, range),
    decreases sorted.len(),
{
    if at == sorted.len() {
        assert(sorted.insert(at, range) =~= sorted.push(range));
    } else {
        assert(sorted.last() == sorted[sorted.len() - 1]);
        lemma_placed(sorted.drop_last(), range, at);
        assert(sorted.insert(at, range) =~= sorted.drop_last().insert(at, range).push(
            sorted.last(),
        ));
    }
}

proof fn lemma_placed_sorted(sorted: Seq<PageLabelV>, range: PageLabelV)
    requires
        forall|i: int, j: int|
            0 <= i <= j < sorted.len() ==> (#[trigger] sorted[i]).first_page <= (
            #[trigger] sorted[j]).first_page,
    ensures
        ({
            let more = placed(sorted, range);
            &&& forall|i: int, j: int|
                0 <= i <= j < more.len() ==> (#[trigger] more[i]).first_page <= (
                #[trigger] more[j]).first_page
            &&& more.to_multiset() == sorted.to_multiset().insert(range)
            &&& forall|i: int|
                0 <= i < more.len() ==> (#[trigger] more[i]) == range || sorted.contains(more[i])
        }),
    decreases sorted.len(),
{
    broadcast use vstd::seq_lib::group_to_multiset_ensures;

    let more = placed(sorted, range);
    if sorted.len() == 0 || sorted.last().first_page <= range.first_page {
        assert(sorted.len() > 0 ==> sorted.last() == sorted[sorted.len() - 1]);
        assert forall|i: int| 0 <= i < more.len() implies (#[trigger] more[i]) == range
            || sorted.contains(more[i]) by {
            if i < sorted.len() {
                assert(more[i] == sorted[i]);
            }
        }
    } else {
        let less = sorted.drop_last();
        lemma_placed_sorted(less, range);
        let inner = placed(less, range);
        assert(sorted =~= less.push(sorted.last()));
        assert(sorted.to_multiset() =~= less.to_multiset().insert(sorted.last()));
        assert(more.to_multiset() =~= sorted.to_multiset().insert(range));
        assert forall|i: int| 0 <= i < inner.len() implies (#[trigger] inner[i]).first_page
            <= sorted.last().first_page by {
            if inner[i] != range {
                let k = choose|k: int| 0 <= k < less.len() && less[k] == inner[i];
                assert(sorted[k] == inner[i]);
                assert(sorted.last() == sorted[sorted.len() - 1]);
            }
        }
        assert forall|i: int| 0 <= i < more.len() implies (#[trigger] more[i]) == range
            || sorted.contains(more[i]) by {
            if i < inner.len() {
                assert(more[i] == inner[i]);
                if inner[i] != range {
                    let k = choose|k: int| 0 <= k < less.len() && less[k] == inner[i];
                    assert(sorted[k] == inner[i]);
                }
            } else {
                assert(more[i] == sorted[sorted.len() - 1]);
            }
        }
    }
}

/// Sorting keeps the ranges, none lost and none added, and orders them by
/// their first page.
pub proof fn sorting_orders_the_ranges(ranges: Seq<PageLabelV>)
    ensures
        by_first_page(ranges).to_multiset() == ranges.to_multiset(),
        forall|i: int, j: int|
            0 <= i <= j < by_first_page(ranges).len() ==> (#[trigger] by_first_page(
                ranges,
            )[i]).first_page <= (#[trigger] by_first_page(ranges)[j]).first_page,
    decreases ranges.len(),
{
    broadcast use vstd::seq_lib::group_to_multiset_ensures;

    if ranges.len() > 0 {
        sorting_orders_the_ranges(ranges.drop_last());
        lemma_placed_sorted(by_first_page(ranges.drop_last()), ranges.last());
        assert(ranges =~= ranges.drop_last().push(ranges.last()));
    }
}

/// Puts a range among sorted ones, behind those that begin no later.
fn place(sorted: &mut Vec<PageLabel>, range: PageLabel)
    ensures
        ranges_view(final(sorted)@) == placed(ranges_view(old(sorted)@), range@),
{
    let ghost before = ranges_view(sorted@);
    let mut at: usize = sorted.len();
    while at > 0 && sorted[at - 1].first_page > range.first_page
        invariant
            at <= sorted@.len(),
            before == ranges_view(sorted@),
            forall|j: int| at <= j < before.len() ==> (#[trigger] before[j]).first_page
                > range.first_page,
        decreases at,
    {
        assert(before[at - 1] == sorted@[at - 1]@);
        at -= 1;
    }
    proof {
        if at > 0 {
            assert(before[at - 1] == sorted@[at - 1]@);
        }
        lemma_placed(before, range@, at as int);
    }
    sorted.insert(at, range);
    assert(ranges_view(sorted@) =~= before.insert(at as int, range@));
}

/// The labelling range that begins at a page.
fn read_range<S: ObjectSource>(src: &S, first_page: usize, dict: &Dict) -> (out: PageLabel)
    ensures
        out@ == range_of(src.model(), first_page as int, dict@),
{
    let entries = Entries { src, dict };
    PageLabel {
        first_page,
        style: match entries.name("S") {
            Some(code) => LabelStyle::from_code(code.as_str()),
            None => None,
        },
        prefix: entries.text("P"),
        start_at: match entries.small("St") {
            Some(start) => if start >= 1 {
                start
            } else {
                1
            },
            None => 1,
        },
    }
}

/// The models of labelling ranges that may be absent.
pub open spec fn ranges_opt(ranges: Option<Vec<PageLabel>>) -> Option<Seq<PageLabelV>> {
    match ranges {
        Some(ranges) => Some(ranges_view(ranges@)),
        None => None,
    }
}

/// The document's labelling ranges from the catalog's `/PageLabels` number
/// tree, sorted by first page; `None` when the catalog has no such tree.
/// A range whose value is not a dictionary is skipped, an unknown `/S`
/// reads as no style, and a `/St` below 1 reads as 1.
pub fn page_labels_with<S: ObjectSource>(src: &S, trailer: &Dict) -> (out: Option<Vec<PageLabel>>)
    ensures
        ranges_opt(out) == (match tree::catalog_dict(src.model(), trailer@, "PageLabels"@) {
            Some(root) => Some(
                by_first_page(ranges_in(src.model(), tree::tree_numbers(src.model(), root))),
            ),
            None => None,
        }),
{
    let root = match dict_in_catalog(src, trailer, "PageLabels") {
        Some(root) => root,
        None => {
            return None;
        },
    };
    let entries = tree::numbered_entries(src, &root);
    let ghost all = tree::numbered_view(entries@);
    let mut ranges: Vec<PageLabel> = Vec::new();
    let mut i: usize = 0;
    assert(all.take(0) =~= Seq::<(i64, ObjectV)>::empty());
    assert(ranges_view(ranges@) =~= Seq::<PageLabelV>::empty());
    while i < entries.len()
        invariant
            i <= entries@.len(),
            all == tree::numbered_view(entries@),
            ranges_view(ranges@) == by_first_page(ranges_in(src.model(), all.take(i as int))),
        decreases entries@.len() - i,
    {
        proof {
            assert(all.take(i + 1).drop_last() =~= all.take(i as int));
            assert(all.take(i + 1).last() == (entries@[i as int].0, entries@[i as int].1@));
        }
        let ghost before = ranges_in(src.model(), all.take(i as int));
        let first_page: i64 = entries[i].0;
        if 0 <= first_page && first_page as u64 <= usize::MAX as u64 {
            if let Some(dict) = resolved_dict(src, &entries[i].1) {
                let range = read_range(src, first_page as usize, &dict);
                place(&mut ranges, range);
                assert(before.push(range@).drop_last() =~= before);
            }
        }
        i += 1;
    }
    assert(all.take(i as int) =~= all);
    Some(ranges)
}

/// The label of the page at `index`: that of the last range starting at or
/// before it, or its 1-based page number.
pub open spec fn page_label_of(ranges: Seq<PageLabelV>, index: int) -> Seq<char>
    decreases ranges.len(),
{
    if ranges.len() == 0 {
        text::decimal_numeral((index + 1) as nat)
    } else if ranges.last().first_page <= index {
        label_of(ranges.last(), index)
    } else {
        page_label_of(ranges.drop_last(), index)
    }
}

/// The label of the page at `index` under `ranges`: the last range starting
/// at or before it. A page before the first range, which a well-formed tree
/// has none of, shows its 1-based page number, as viewers do.
pub fn page_label(ranges: &[PageLabel], index: usize) -> (out: String)
    requires
        ranges@.len() == 0 ==> index < usize::MAX,
    ensures
        out@ == page_label_of(ranges_view(ranges@), index as int),
{
    let ghost all = ranges_view(ranges@);
    let mut i: usize = ranges.len();
    assert(all.take(i as int) =~= all);
    while i > 0
        invariant
            i <= ranges@.len(),
            all == ranges_view(ranges@),
            ranges@.len() == 0 ==> index < usize::MAX,
            i < ranges@.len() ==> index < usize::MAX,
            page_label_of(all, index as int) == page_label_of(all.take(i as int), index as int),
        decreases i,
    {
        proof {
            assert(all.take(i as int).last() == ranges@[i - 1]@);
            assert(all.take(i as int).drop_last() =~= all.take(i - 1));
        }
        i -= 1;
        if ranges[i].first_page <= index {
            return ranges[i].label(index);
        }
    }
    text::decimal(index as u64 + 1)
}

/// Law: a page takes its label from the last range that begins at it or before;
/// before the first range pages count from one in decimal.
pub proof fn pages_take_the_last_range_before_them(
    before: Seq<PageLabelV>,
    range: PageLabelV,
    behind: Seq<PageLabelV>,
    index: int,
)
    requires
        index >= 0,
        range.first_page <= index,
        forall|i: int| 0 <= i < behind.len() ==> (#[trigger] behind[i]).first_page > index,
    ensures
        page_label_of(before.push(range) + behind, index) == label_of(range, index),
        page_label_of(behind, index) == text::decimal_numeral((index + 1) as nat),
    decreases behind.len(),
{
    let all = before.push(range) + behind;
    if behind.len() == 0 {
        assert(all =~= before.push(range));
    } else {
        let head = behind.drop_last();
        assert(forall|i: int| 0 <= i < head.len() ==> #[trigger] head[i] == behind[i]);
        assert(behind[behind.len() - 1].first_page > index);
        pages_take_the_last_range_before_them(before, range, head, index);
        assert(all.drop_last() =~= before.push(range) + head);
        assert(all.last() == behind.last());
    }
}

/// Law: the label of a page is the prefix of its range and, where the range has
/// a style, the number of the page in it, counted from where the range starts.
pub proof fn labels_count_from_their_start(range: PageLabelV, style: LabelStyle, index: int)
    requires
        range.first_page <= index,
        range.start_at + (index - range.first_page) <= u32::MAX,
    ensures
        ({
            let number = (range.start_at + (index - range.first_page)) as nat;
            let prefix = match range.prefix {
                Some(p) => p,
                None => Seq::empty(),
            };
            &&& range.style == Some(style) ==> label_of(range, index) == prefix + numeral_of(
                style,
                number,
            )
            &&& range.style is None ==> label_of(range, index) == prefix
        }),
{
}

/// Law: what a label dictionary says: its style, its prefix and its first
/// number, one where none is given or it is none.
pub proof fn label_dictionaries_read_back(
    src: SourceV,
    first_page: int,
    d: Map<Seq<char>, ObjectV>,
    style: LabelStyle,
    prefix: Seq<u8>,
    start: i64,
)
    requires
        d.contains_key("S"@),
        d["S"@] == ObjectV::Name(style_code(style)),
        d.contains_key("P"@),
        d["P"@] == ObjectV::String(prefix),
        d.contains_key("St"@),
        d["St"@] == ObjectV::Int(start),
    ensures
        range_of(src, first_page, d).first_page == first_page,
        range_of(src, first_page, d).style == Some(style),
        range_of(src, first_page, d).prefix == Some(object::text_chars(prefix)),
        range_of(src, first_page, d).start_at == (if 1 <= start <= u32::MAX {
            start as int
        } else {
            1
        }),
        range_of(src, first_page, Map::empty()).style is None,
        range_of(src, first_page, Map::empty()).prefix is None,
        range_of(src, first_page, Map::empty()).start_at == 1,
{
    style_codes_are_faithful(style);
    assert(source::resolved(src, d["S"@]) == Ok::<ObjectV, source::FaultV>(d["S"@]));
    assert(source::resolved(src, d["P"@]) == Ok::<ObjectV, source::FaultV>(d["P"@]));
    assert(source::resolved(src, d["St"@]) == Ok::<ObjectV, source::FaultV>(d["St"@]));
}

/// Law: every entry of the page label tree with a dictionary is a range from its
/// page on, in the order of the entries; negative pages are left out.
pub proof fn ranges_come_in_order(
    src: SourceV,
    entries: Seq<(i64, ObjectV)>,
    page: i64,
    d: Map<Seq<char>, ObjectV>,
)
    ensures
        0 <= page <= 0xffff_ffff ==> ranges_in(src, entries.push((page, ObjectV::Dict(d))))
            == ranges_in(src, entries).push(range_of(src, page as int, d)),
        page < 0 ==> ranges_in(src, entries.push((page, ObjectV::Dict(d)))) == ranges_in(
            src,
            entries,
        ),
        ranges_in(src, entries.push((page, ObjectV::Null))) == ranges_in(src, entries),
        ranges_in(src, Seq::empty()).len() == 0,
{
    assert(entries.push((page, ObjectV::Dict(d))).drop_last() =~= entries);
    assert(entries.push((page, ObjectV::Null)).drop_last() =~= entries);
    assert(tree::dict_at(src, ObjectV::Dict(d)) == Some(d));
    assert(tree::dict_at(src, ObjectV::Null) is None);
}

} // verus!
