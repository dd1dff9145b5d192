//! The mathematical model of the reader: what each parsed value denotes,
//! which failures exist, and a character-by-character description of how a
//! text is read. The executable readers are proved to return exactly what
//! these functions say.

use vstd::prelude::*;

verus! {

/// The denotation of a parsed value: a symbol, a quoted string's content, a
/// non-negative integer, a boolean, or an ordered list of child values.
///
/// `Boolean` is a reserved variant: no surface syntax produces it.
pub enum SpecValue {
    Symbol(Seq<char>),
    Str(Seq<char>),
    Number(u64),
    Boolean(bool),
    List(Seq<SpecValue>),
}

/// The denotation of a parse failure. Every failure is terminal: no partial
/// result survives it.
pub enum SpecError {
    /// The text to parse has zero length.
    EmptyInput,
    /// A list or string was opened but never closed, or dispatch was
    /// attempted with nothing left to read.
    UnexpectedEndOfInput,
    /// The lookahead character matches none of the recognized classes.
    InvalidCharacter(char),
    /// A digit run whose value does not fit the number type; carries the
    /// offending digits.
    NotANumber(Seq<char>),
}

/// Whitespace that the dispatcher skips between expressions.
/// Tab is deliberately not included: that is a policy choice of the format.
pub open spec fn is_ws_char(c: char) -> bool {
    c == ' ' || c == '\r' || c == '\n'
}

/// Decimal digits `'0'` through `'9'`.
pub open spec fn is_digit_char(c: char) -> bool {
    48 <= c as int && c as int <= 57
}

/// The numeric value of a decimal digit.
pub open spec fn digit_val(c: char) -> int {
    c as int - 48
}

/// Whether a character outside the ASCII range counts as alphanumeric.
/// Only `char::is_alphanumeric` decides this; nothing here pins it down.
pub uninterp spec fn nonascii_alphanumeric(c: char) -> bool;

/// Whether a character counts as alphanumeric for symbol purposes: the ASCII
/// letters and digits, plus whatever `char::is_alphanumeric` accepts beyond
/// ASCII.
pub open spec fn spec_alphanumeric(c: char) -> bool {
    if (c as int) < 128 {
        (97 <= c as int && c as int <= 122)  // 'a'..='z'
        || (65 <= c as int && c as int <= 90)  // 'A'..='Z'
        || is_digit_char(c)
    } else {
        nonascii_alphanumeric(c)
    }
}

/// The symbol-character predicate: alphanumeric, or one of `+ - / *`.
pub open spec fn is_symbol_char(c: char) -> bool {
    spec_alphanumeric(c) || c == '+' || c == '-' || c == '/' || c == '*'
}

/// The first index at or after `i` holding a character that is not
/// whitespace, or `text.len()` if only whitespace remains.
pub open spec fn skip_ws_end(text: Seq<char>, i: int) -> int
    decreases text.len() - i,
{
    if 0 <= i && i < text.len() && is_ws_char(text[i]) {
        skip_ws_end(text, i + 1)
    } else {
        i
    }
}

/// The first index at or after `i` holding a non-digit, or `text.len()` if
/// only digits remain.
pub open spec fn digit_run_end(text: Seq<char>, i: int) -> int
    decreases text.len() - i,
{
    if 0 <= i && i < text.len() && is_digit_char(text[i]) {
        digit_run_end(text, i + 1)
    } else {
        i
    }
}

/// The first index at or after `i` holding a non-symbol character, or
/// `text.len()` if only symbol characters remain.
pub open spec fn symbol_run_end(text: Seq<char>, i: int) -> int
    decreases text.len() - i,
{
    if 0 <= i && i < text.len() && is_symbol_char(text[i]) {
        symbol_run_end(text, i + 1)
    } else {
        i
    }
}

/// The index of the first `'"'` at or after `i`, or `text.len()` if there is
/// none.
pub open spec fn close_quote_at(text: Seq<char>, i: int) -> int
    decreases text.len() - i,
{
    if 0 <= i && i < text.len() {
        if text[i] == '"' {
            i
        } else {
            close_quote_at(text, i + 1)
        }
    } else {
        i
    }
}

/// The value of a digit sequence read as a decimal numeral.
pub open spec fn digits_value(s: Seq<char>) -> int
    decreases s.len(),
{
    if s.len() == 0 {
        0
    } else {
        digits_value(s.drop_last()) * 10 + digit_val(s.last())
    }
}

/// What the number reader yields at `pos`: the maximal digit run, read as a
/// decimal numeral, or `NotANumber` when its value does not fit in `u64`.
pub open spec fn spec_read_number(text: Seq<char>, pos: int) -> Result<(SpecValue, int), SpecError> {
    let end = digit_run_end(text, pos);
    let digits = text.subrange(pos, end);
    if digits_value(digits) <= u64::MAX {
        Ok((SpecValue::Number(digits_value(digits) as u64), end))
    } else {
        Err(SpecError::NotANumber(digits))
    }
}

/// What the symbol reader yields at `pos`: the maximal run of symbol
/// characters. End of input terminates the run normally.
pub open spec fn spec_read_symbol(text: Seq<char>, pos: int) -> Result<(SpecValue, int), SpecError> {
    let end = symbol_run_end(text, pos);
    Ok((SpecValue::Symbol(text.subrange(pos, end)), end))
}

/// What the string reader yields at a `'"'` at `pos`: the characters up to
/// the next `'"'`, unescaped, or `UnexpectedEndOfInput` when no closing
/// quote exists.
pub open spec fn spec_read_str(text: Seq<char>, pos: int) -> Result<(SpecValue, int), SpecError> {
    let close = close_quote_at(text, pos + 1);
    if close < text.len() {
        Ok((SpecValue::Str(text.subrange(pos + 1, close)), close + 1))
    } else {
        Err(SpecError::UnexpectedEndOfInput)
    }
}

/// A successor position that is structurally known to make progress and stay
/// in bounds; once the reader is proved to advance, this is just `mid`.
pub open spec fn step_to(text: Seq<char>, pos: int, mid: int) -> int {
    if mid <= pos {
        pos + 1
    } else if mid > text.len() {
        text.len() as int
    } else {
        mid
    }
}

/// The dispatcher: what reading one expression at `pos` yields, and the
/// position just past it. Dispatch is on the lookahead character: `'('`
/// opens a list, whitespace is skipped, `'"'` opens a string, a digit opens
/// a number, a symbol character opens a symbol, and anything else is an
/// `InvalidCharacter`. With nothing left to read it is
/// `UnexpectedEndOfInput`.
pub open spec fn spec_read_expr(text: Seq<char>, pos: int) -> Result<(SpecValue, int), SpecError>
    decreases text.len() - pos, 1int,
{
    if pos < 0 || pos >= text.len() {
        Err(SpecError::UnexpectedEndOfInput)
    } else {
        let c = text[pos];
        if c == '(' {
            match spec_read_list_items(text, pos + 1) {
                Ok((items, end)) => Ok((SpecValue::List(items), end)),
                Err(e) => Err(e),
            }
        } else if is_ws_char(c) {
            spec_read_expr(text, pos + 1)
        } else if c == '"' {
            spec_read_str(text, pos)
        } else if is_digit_char(c) {
            spec_read_number(text, pos)
        } else if is_symbol_char(c) {
            spec_read_symbol(text, pos)
        } else {
            Err(SpecError::InvalidCharacter(c))
        }
    }
}

/// What reading list elements at `pos` (just past the `'('`) yields: the
/// elements up to the matching `')'` and the position just past it, or
/// `UnexpectedEndOfInput` when the input ends before the `')'`.
pub open spec fn spec_read_list_items(text: Seq<char>, pos: int) -> Result<(Seq<SpecValue>, int), SpecError>
    decreases text.len() - pos, 2int,
{
    if pos < 0 || pos >= text.len() {
        Err(SpecError::UnexpectedEndOfInput)
    } else if text[pos] == ')' {
        Ok((Seq::empty(), pos + 1))
    } else {
        match spec_read_expr(text, pos) {
            Ok((v, mid)) => {
                match spec_read_list_items(text, step_to(text, pos, mid)) {
                    Ok((rest, end)) => Ok((seq![v] + rest, end)),
                    Err(e) => Err(e),
                }
            },
            Err(e) => Err(e),
        }
    }
}

/// What the driver yields from `pos` on: expressions read one after the
/// other, whitespace between and after them skipped, until the input is
/// exhausted.
pub open spec fn spec_parse_iter(text: Seq<char>, pos: int) -> Result<Seq<SpecValue>, SpecError>
    decreases text.len() - pos,
{
    let p = skip_ws_end(text, pos);
    if p < 0 || p >= text.len() {
        Ok(Seq::empty())
    } else {
        match spec_read_expr(text, p) {
            Ok((v, mid)) => {
                match spec_parse_iter(text, step_to(text, pos, mid)) {
                    Ok(rest) => Ok(seq![v] + rest),
                    Err(e) => Err(e),
                }
            },
            Err(e) => Err(e),
        }
    }
}

/// What parsing a whole text yields: `EmptyInput` for a zero-length text,
/// otherwise the top-level expressions in order.
pub open spec fn spec_parse_all(text: Seq<char>) -> Result<Seq<SpecValue>, SpecError> {
    if text.len() == 0 {
        Err(SpecError::EmptyInput)
    } else {
        spec_parse_iter(text, 0)
    }
}

/// Every scan stays between where it starts and the end of the text.
pub proof fn lemma_run_in_bounds(text: Seq<char>, i: int)
    requires
        0 <= i <= text.len(),
    ensures
        i <= skip_ws_end(text, i) <= text.len(),
        i <= digit_run_end(text, i) <= text.len(),
        i <= symbol_run_end(text, i) <= text.len(),
        i <= close_quote_at(text, i) <= text.len(),
    decreases text.len() - i,
{
    if i < text.len() {
        lemma_run_in_bounds(text, i + 1);
    }
}

/// On success, a reader leaves the position strictly past where it began
/// and never past the end of the text: parsing always makes forward
/// progress, so it terminates on finite input.
pub proof fn lemma_reader_progress(text: Seq<char>, pos: int)
    requires
        0 <= pos <= text.len(),
    ensures
        spec_read_expr(text, pos) matches Ok(t) ==> pos < t.1 <= text.len(),
        spec_read_list_items(text, pos) matches Ok(u) ==> pos < u.1 <= text.len(),
    decreases text.len() - pos,
{
    if pos < text.len() {
        let c = text[pos];
        lemma_run_in_bounds(text, pos);
        lemma_run_in_bounds(text, pos + 1);
        if c == '(' || is_ws_char(c) {
            lemma_reader_progress(text, pos + 1);
        }
        assert(spec_read_expr(text, pos) matches Ok(t) ==> pos < t.1 <= text.len());
        if c != ')' {
            if let Ok((v, mid)) = spec_read_expr(text, pos) {
                lemma_reader_progress(text, mid);
            }
        }
    }
}

/// Extending a slice of the text by the character at its end is a push.
pub proof fn lemma_subrange_push(text: Seq<char>, p0: int, cur: int)
    requires
        0 <= p0 <= cur < text.len(),
    ensures
        text.subrange(p0, cur + 1) == text.subrange(p0, cur).push(text[cur]),
{
    let a = text.subrange(p0, cur + 1);
    let b = text.subrange(p0, cur).push(text[cur]);
    assert forall|j: int| 0 <= j < cur + 1 - p0 implies a[j] == b[j] by {
        assert(a[j] == text[p0 + j]);
        if j < cur - p0 {
            assert(b[j] == text.subrange(p0, cur)[j]);
        }
    }
    assert(a =~= b);
}

/// Appending a digit multiplies the numeral's value by ten and adds the
/// digit.
pub proof fn lemma_digits_value_push(s: Seq<char>, c: char)
    ensures
        digits_value(s.push(c)) == digits_value(s) * 10 + digit_val(c),
{
    assert(s.push(c).drop_last() =~= s);
    assert(s.push(c).last() == c);
}

/// Whitespace characters are not expression-leading characters: not
/// symbol constituents, not digits, and none of the delimiters.
pub proof fn lemma_ws_char_classes(c: char)
    requires
        is_ws_char(c),
    ensures
        !is_symbol_char(c),
        !is_digit_char(c),
        c != '"',
        c != '(',
        c != ')',
{
}

/// Whether two texts agree from the given positions to their ends.
pub open spec fn same_suffix(t1: Seq<char>, p1: int, t2: Seq<char>, p2: int) -> bool {
    &&& 0 <= p1 <= t1.len()
    &&& 0 <= p2 <= t2.len()
    &&& t1.len() - p1 == t2.len() - p2
    &&& forall|k: int| 0 <= k < t1.len() - p1 ==> #[trigger] t1[p1 + k] == t2[p2 + k]
}

/// A scan over a suffix depends only on that suffix: on texts that agree
/// from `p1` and `p2` on, every scan ends the same distance in.
pub proof fn lemma_scan_shift(t1: Seq<char>, p1: int, t2: Seq<char>, p2: int)
    requires
        same_suffix(t1, p1, t2, p2),
    ensures
        skip_ws_end(t2, p2) == skip_ws_end(t1, p1) - p1 + p2,
        digit_run_end(t2, p2) == digit_run_end(t1, p1) - p1 + p2,
        symbol_run_end(t2, p2) == symbol_run_end(t1, p1) - p1 + p2,
        close_quote_at(t2, p2) == close_quote_at(t1, p1) - p1 + p2,
    decreases t1.len() - p1,
{
    if p1 < t1.len() {
        assert(t1[p1 + 0] == t2[p2 + 0]);
        assert forall|k: int| 0 <= k < t1.len() - (p1 + 1) implies #[trigger] t1[p1 + 1 + k]
            == t2[p2 + 1 + k] by {
            assert(t1[p1 + (k + 1)] == t2[p2 + (k + 1)]);
        }
        lemma_scan_shift(t1, p1 + 1, t2, p2 + 1);
    }
}

/// Texts that agree from `p1` and `p2` on still agree from any later pair
/// of positions the same distance in.
pub proof fn lemma_same_suffix_advance(t1: Seq<char>, p1: int, t2: Seq<char>, p2: int, d: int)
    requires
        same_suffix(t1, p1, t2, p2),
        0 <= d <= t1.len() - p1,
    ensures
        same_suffix(t1, p1 + d, t2, p2 + d),
{
    assert forall|k: int| 0 <= k < t1.len() - (p1 + d) implies #[trigger] t1[p1 + d + k]
        == t2[p2 + d + k] by {
        assert(t1[p1 + (d + k)] == t2[p2 + (d + k)]);
    }
}

/// On texts that agree from `p1` and `p2` on, corresponding slices of the
/// suffixes are equal.
pub proof fn lemma_same_suffix_subrange(t1: Seq<char>, p1: int, t2: Seq<char>, p2: int, a: int, b: int)
    requires
        same_suffix(t1, p1, t2, p2),
        p1 <= a <= b <= t1.len(),
    ensures
        t1.subrange(a, b) == t2.subrange(a - p1 + p2, b - p1 + p2),
{
    let a2 = a - p1 + p2;
    let b2 = b - p1 + p2;
    assert forall|j: int| 0 <= j < b - a implies t1.subrange(a, b)[j] == t2.subrange(a2, b2)[j] by {
        assert(t1[p1 + (a - p1 + j)] == t2[p2 + (a - p1 + j)]);
        assert(t1.subrange(a, b)[j] == t1[a + j]);
        assert(t2.subrange(a2, b2)[j] == t2[a2 + j]);
    }
    assert(t1.subrange(a, b) =~= t2.subrange(a2, b2));
}

/// The reader looks only at the text from the current position on: on
/// texts that agree from `p1` and `p2` on, it yields the same value or the
/// same failure, ending the same distance in.
pub proof fn lemma_reader_shift(t1: Seq<char>, p1: int, t2: Seq<char>, p2: int)
    requires
        same_suffix(t1, p1, t2, p2),
    ensures
        (spec_read_expr(t1, p1) matches Ok(a) ==> spec_read_expr(t2, p2) == Ok::<
            (SpecValue, int),
            SpecError,
        >((a.0, a.1 - p1 + p2))),
        (spec_read_expr(t1, p1) matches Err(e) ==> spec_read_expr(t2, p2) == Err::<
            (SpecValue, int),
            SpecError,
        >(e)),
        (spec_read_list_items(t1, p1) matches Ok(b) ==> spec_read_list_items(t2, p2) == Ok::<
            (Seq<SpecValue>, int),
            SpecError,
        >((b.0, b.1 - p1 + p2))),
        (spec_read_list_items(t1, p1) matches Err(e) ==> spec_read_list_items(t2, p2) == Err::<
            (Seq<SpecValue>, int),
            SpecError,
        >(e)),
    decreases t1.len() - p1,
{
    lemma_scan_shift(t1, p1, t2, p2);
    if p1 < t1.len() {
        assert(t1[p1 + 0] == t2[p2 + 0]);
        let c = t1[p1];
        lemma_same_suffix_advance(t1, p1, t2, p2, 1);
        if c == '(' || is_ws_char(c) {
            lemma_reader_shift(t1, p1 + 1, t2, p2 + 1);
        } else if c == '"' {
            lemma_scan_shift(t1, p1 + 1, t2, p2 + 1);
            let close = close_quote_at(t1, p1 + 1);
            lemma_run_in_bounds(t1, p1 + 1);
            if close < t1.len() {
                lemma_same_suffix_subrange(t1, p1, t2, p2, p1 + 1, close);
            }
        } else if is_digit_char(c) {
            lemma_run_in_bounds(t1, p1);
            lemma_same_suffix_subrange(t1, p1, t2, p2, p1, digit_run_end(t1, p1));
        } else if is_symbol_char(c) {
            lemma_run_in_bounds(t1, p1);
            lemma_same_suffix_subrange(t1, p1, t2, p2, p1, symbol_run_end(t1, p1));
        }
        assert(spec_read_expr(t1, p1) matches Ok(a) ==> spec_read_expr(t2, p2) == Ok::<
            (SpecValue, int),
            SpecError,
        >((a.0, a.1 - p1 + p2)));
        assert(spec_read_expr(t1, p1) matches Err(e) ==> spec_read_expr(t2, p2) == Err::<
            (SpecValue, int),
            SpecError,
        >(e));
        if c != ')' {
            if let Ok((v, mid)) = spec_read_expr(t1, p1) {
                lemma_reader_progress(t1, p1);
                lemma_reader_progress(t2, p2);
                lemma_same_suffix_advance(t1, p1, t2, p2, mid - p1);
                lemma_reader_shift(t1, mid, t2, mid - p1 + p2);
            }
        }
    }
}

/// Where only whitespace is left, the dispatcher skips it all and fails
/// with `UnexpectedEndOfInput`.
pub proof fn lemma_ws_only_expr(text: Seq<char>, pos: int)
    requires
        0 <= pos <= text.len(),
        forall|k: int| pos <= k < text.len() ==> is_ws_char(#[trigger] text[k]),
    ensures
        spec_read_expr(text, pos) == Err::<(SpecValue, int), SpecError>(
            SpecError::UnexpectedEndOfInput,
        ),
    decreases text.len() - pos,
{
    if pos < text.len() {
        lemma_ws_char_classes(text[pos]);
        lemma_ws_only_expr(text, pos + 1);
    }
}

/// Appending whitespace to the text does not move the end of any digit,
/// symbol or quote scan that starts inside the original text, while a
/// whitespace scan that reaches the original end runs on through the
/// appended tail.
pub proof fn lemma_scan_extend(t: Seq<char>, w: Seq<char>, i: int)
    requires
        0 <= i <= t.len(),
        forall|k: int| 0 <= k < w.len() ==> is_ws_char(#[trigger] w[k]),
    ensures
        digit_run_end(t + w, i) == digit_run_end(t, i),
        symbol_run_end(t + w, i) == symbol_run_end(t, i),
        close_quote_at(t, i) < t.len() ==> close_quote_at(t + w, i) == close_quote_at(t, i),
        close_quote_at(t, i) == t.len() ==> close_quote_at(t + w, i) == t.len() + w.len(),
        skip_ws_end(t, i) < t.len() ==> skip_ws_end(t + w, i) == skip_ws_end(t, i),
        skip_ws_end(t, i) == t.len() ==> skip_ws_end(t + w, i) == t.len() + w.len(),
    decreases (t + w).len() - i,
{
    if i < t.len() {
        assert((t + w)[i] == t[i]);
        lemma_scan_extend(t, w, i + 1);
    } else {
        lemma_run_in_bounds(t, i);
        lemma_ws_tail_scans(t + w, i);
        assert forall|k: int| i <= k < (t + w).len() implies is_ws_char(#[trigger] (t + w)[k]) by {
            assert((t + w)[k] == w[k - t.len()]);
        }
    }
}

/// Over a whitespace-only tail: the whitespace scan runs to the end, and
/// the other scans stop at once.
pub proof fn lemma_ws_tail_scans(x: Seq<char>, i: int)
    requires
        0 <= i <= x.len(),
        forall|k: int| i <= k < x.len() ==> is_ws_char(#[trigger] x[k]),
    ensures
        skip_ws_end(x, i) == x.len(),
        digit_run_end(x, i) == i,
        symbol_run_end(x, i) == i,
        close_quote_at(x, i) == x.len(),
    decreases x.len() - i,
{
    if i < x.len() {
        lemma_ws_char_classes(x[i]);
        lemma_ws_tail_scans(x, i + 1);
    }
}

/// Appending whitespace to the text changes no reading that starts inside
/// the original text: the same value or the same failure comes back, at
/// the same position.
pub proof fn lemma_reader_ws_extend(t: Seq<char>, w: Seq<char>, pos: int)
    requires
        0 <= pos <= t.len(),
        forall|k: int| 0 <= k < w.len() ==> is_ws_char(#[trigger] w[k]),
    ensures
        spec_read_expr(t + w, pos) == spec_read_expr(t, pos),
        spec_read_list_items(t + w, pos) == spec_read_list_items(t, pos),
    decreases t.len() - pos,
{
    let x = t + w;
    lemma_scan_extend(t, w, pos);
    if pos == t.len() {
        assert forall|k: int| pos <= k < x.len() implies is_ws_char(#[trigger] x[k]) by {
            assert(x[k] == w[k - t.len()]);
        }
        lemma_ws_only_expr(x, pos);
        if pos < x.len() {
            assert(x[pos] == w[0]);
            lemma_ws_char_classes(x[pos]);
        } else {
            assert(x =~= t);
        }
    } else {
        assert(x[pos] == t[pos]);
        let c = t[pos];
        lemma_scan_extend(t, w, pos + 1);
        if c == '(' || is_ws_char(c) {
            lemma_reader_ws_extend(t, w, pos + 1);
        } else if c == '"' {
            let close = close_quote_at(t, pos + 1);
            lemma_run_in_bounds(t, pos + 1);
            if close < t.len() {
                assert(t.subrange(pos + 1, close) =~= x.subrange(pos + 1, close));
            }
        } else if is_digit_char(c) {
            lemma_run_in_bounds(t, pos);
            let end = digit_run_end(t, pos);
            assert(t.subrange(pos, end) =~= x.subrange(pos, end));
        } else if is_symbol_char(c) {
            lemma_run_in_bounds(t, pos);
            let end = symbol_run_end(t, pos);
            assert(t.subrange(pos, end) =~= x.subrange(pos, end));
        }
        assert(spec_read_expr(x, pos) == spec_read_expr(t, pos));
        if c != ')' {
            if let Ok((v, mid)) = spec_read_expr(t, pos) {
                lemma_reader_progress(t, pos);
                lemma_reader_ws_extend(t, w, mid);
            }
        }
    }
}

/// Appending whitespace to the text changes nothing of what the driver
/// yields from any position inside the original text.
pub proof fn lemma_parse_iter_ws_extend(t: Seq<char>, w: Seq<char>, pos: int)
    requires
        0 <= pos <= t.len(),
        forall|k: int| 0 <= k < w.len() ==> is_ws_char(#[trigger] w[k]),
    ensures
        spec_parse_iter(t + w, pos) == spec_parse_iter(t, pos),
    decreases t.len() - pos,
{
    let x = t + w;
    lemma_scan_extend(t, w, pos);
    lemma_run_in_bounds(t, pos);
    let p = skip_ws_end(t, pos);
    if p < t.len() {
        lemma_reader_ws_extend(t, w, p);
        if let Ok((v, mid)) = spec_read_expr(t, p) {
            lemma_reader_progress(t, p);
            lemma_parse_iter_ws_extend(t, w, mid);
        }
    }
}

/// The driver looks only at the text from the current position on: on
/// texts that agree from `p1` and `p2` on, it yields exactly the same
/// values or the same failure.
pub proof fn lemma_parse_iter_shift(t1: Seq<char>, p1: int, t2: Seq<char>, p2: int)
    requires
        same_suffix(t1, p1, t2, p2),
    ensures
        spec_parse_iter(t2, p2) == spec_parse_iter(t1, p1),
    decreases t1.len() - p1,
{
    lemma_scan_shift(t1, p1, t2, p2);
    lemma_run_in_bounds(t1, p1);
    let p = skip_ws_end(t1, p1);
    if p < t1.len() {
        lemma_same_suffix_advance(t1, p1, t2, p2, p - p1);
        lemma_reader_shift(t1, p, t2, p - p1 + p2);
        if let Ok((v, mid)) = spec_read_expr(t1, p) {
            lemma_reader_progress(t1, p);
            lemma_reader_progress(t2, p - p1 + p2);
            lemma_same_suffix_advance(t1, p1, t2, p2, mid - p1);
            lemma_parse_iter_shift(t1, mid, t2, mid - p1 + p2);
        }
    }
}

/// Leading whitespace is skipped before anything is read: the driver
/// yields the same from either side of a whitespace run.
pub proof fn lemma_parse_iter_ws_prefix(x: Seq<char>, i: int, j: int)
    requires
        0 <= i <= j <= x.len(),
        forall|k: int| i <= k < j ==> is_ws_char(#[trigger] x[k]),
    ensures
        spec_parse_iter(x, i) == spec_parse_iter(x, j),
    decreases j - i,
{
    if i < j {
        lemma_parse_iter_ws_prefix(x, i + 1, j);
        lemma_run_in_bounds(x, i + 1);
        let p = skip_ws_end(x, i);
        assert(skip_ws_end(x, i) == skip_ws_end(x, i + 1));
        if p < x.len() {
            if let Ok((v, mid)) = spec_read_expr(x, p) {
                lemma_run_in_bounds(x, i);
                lemma_reader_progress(x, p);
                assert(step_to(x, i, mid) == step_to(x, i + 1, mid));
            }
        }
    }
}

/// Surrounding whitespace is transparent: a non-empty text wrapped in
/// whitespace parses to exactly the same values, or fails in exactly the
/// same way, as the text alone.
pub proof fn lemma_surrounding_whitespace(pre: Seq<char>, text: Seq<char>, post: Seq<char>)
    requires
        text.len() > 0,
        forall|k: int| 0 <= k < pre.len() ==> is_ws_char(#[trigger] pre[k]),
        forall|k: int| 0 <= k < post.len() ==> is_ws_char(#[trigger] post[k]),
    ensures
        spec_parse_all(pre + text + post) == spec_parse_all(text),
{
    let tp = text + post;
    let whole = pre + text + post;
    assert(whole =~= pre + tp);
    lemma_parse_iter_ws_extend(text, post, 0);
    assert forall|k: int| 0 <= k < tp.len() - 0 implies #[trigger] tp[0 + k] == (pre + tp)[pre.len()
        + k] by {
        assert((pre + tp)[pre.len() + k] == tp[k]);
    }
    assert(same_suffix(tp, 0, pre + tp, pre.len() as int));
    lemma_parse_iter_shift(tp, 0, pre + tp, pre.len() as int);
    assert forall|k: int| 0 <= k < pre.len() implies is_ws_char(#[trigger] (pre + tp)[k]) by {
        assert((pre + tp)[k] == pre[k]);
    }
    lemma_parse_iter_ws_prefix(pre + tp, 0, pre.len() as int);
    assert(spec_parse_all(whole) == spec_parse_iter(pre + tp, 0));
    assert(spec_parse_all(text) == spec_parse_iter(text, 0));
}

} // verus!
