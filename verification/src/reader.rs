//! The executable readers: the dispatcher, the four sub-readers, and the
//! driver. Each is proved to return exactly what the model in
//! [`crate::model`] says.

use vstd::prelude::*;

use crate::cursor::Cursor;
use crate::model::close_quote_at;
use crate::model::digit_run_end;
use crate::model::digits_value;
use crate::model::is_digit_char;
use crate::model::is_symbol_char;
use crate::model::is_ws_char;
use crate::model::lemma_digits_value_push;
use crate::model::lemma_reader_progress;
use crate::model::lemma_run_in_bounds;
use crate::model::lemma_subrange_push;
use crate::model::nonascii_alphanumeric;
use crate::model::skip_ws_end;
use crate::model::spec_alphanumeric;
use crate::model::spec_parse_all;
use crate::model::spec_parse_iter;
use crate::model::spec_read_expr;
use crate::model::spec_read_list_items;
use crate::model::spec_read_number;
use crate::model::spec_read_str;
use crate::model::spec_read_symbol;
use crate::model::symbol_run_end;
use crate::model::SpecError;
use crate::model::SpecValue;
use crate::value::create_list_obj;
use crate::value::create_num_obj;
use crate::value::create_str_obj;
use crate::value::create_sym_obj;
use crate::value::lemma_seq_view;
use crate::value::lemma_seq_view_push;
use crate::value::seq_view;
use crate::value::ParseError;
use crate::value::Value;

verus! {

/// Relies on `char::is_alphanumeric`: true exactly for alphanumeric
/// characters, which within ASCII are the letters and the decimal digits;
/// outside ASCII only that call decides.
pub assume_specification[ char::is_alphanumeric ](c: char) -> (r: bool)
    ensures
        r == spec_alphanumeric(c),
        (c as int) >= 128 ==> r == nonascii_alphanumeric(c),
;

/// Relies on `String::push`: appends the given character to the end of the
/// string.
pub assume_specification[ String::push ](s: &mut String, ch: char)
    ensures
        final(s)@ == old(s)@.push(ch),
;

/// Whether `chr` is a decimal digit, the only characters the number reader
/// consumes.
pub fn is_digit(chr: char) -> (r: bool)
    ensures
        r == is_digit_char(chr),
{
    let n: u32 = chr as u32;
    48 <= n && n <= 57
}

/// The symbol-character predicate: alphanumeric, or one of `+ - / *`. These
/// are the characters a bare identifier may consist of.
pub fn is_symbol(chr: char) -> (r: bool)
    ensures
        r == is_symbol_char(chr),
{
    chr.is_alphanumeric() || chr == '+' || chr == '-' || chr == '/' || chr == '*'
}

/// The number reader: consumes the maximal run of decimal digits, advancing
/// past each, and yields its value, or `NotANumber` when the numeral does
/// not fit in `u64`. Only valid where the dispatcher has confirmed a digit.
pub fn read_number(c: &mut Cursor) -> (r: Result<Value, ParseError>)
    requires
        old(c).wf(),
        old(c).curr_pos < old(c).text@.len(),
        is_digit_char(old(c).text@[old(c).curr_pos as int]),
    ensures
        final(c).wf(),
        final(c).text@ == old(c).text@,
        old(c).curr_pos < final(c).curr_pos,
        final(c).curr_pos == digit_run_end(old(c).text@, old(c).curr_pos as int),
        (spec_read_number(old(c).text@, old(c).curr_pos as int) matches Ok(t) ==> r matches Ok(v)
            && v@ == t.0 && final(c).curr_pos == t.1),
        (spec_read_number(old(c).text@, old(c).curr_pos as int) matches Err(e) ==> r matches Err(
            pe,
        ) && pe@ == e),
{
    let ghost text = c.text@;
    let ghost p0 = c.curr_pos as int;
    let mut buf = String::new();
    let mut value: u64 = 0;
    let mut overflowed = false;
    loop
        invariant
            c.wf(),
            c.text@ == text,
            0 <= p0 <= c.curr_pos as int <= text.len(),
            digit_run_end(text, p0) == digit_run_end(text, c.curr_pos as int),
            buf@ == text.subrange(p0, c.curr_pos as int),
            !overflowed ==> value == digits_value(buf@) && digits_value(buf@) <= u64::MAX,
            overflowed ==> digits_value(buf@) > u64::MAX,
        ensures
            c.wf(),
            c.text@ == text,
            p0 <= c.curr_pos as int <= text.len(),
            digit_run_end(text, p0) == digit_run_end(text, c.curr_pos as int),
            buf@ == text.subrange(p0, c.curr_pos as int),
            !overflowed ==> value == digits_value(buf@) && digits_value(buf@) <= u64::MAX,
            overflowed ==> digits_value(buf@) > u64::MAX,
            c.curr_pos as int == text.len() || !is_digit_char(text[c.curr_pos as int]),
        decreases text.len() - c.curr_pos,
    {
        if !c.has_next_char() {
            break;
        }
        let ch = match c.current_char() {
            Ok(ch) => ch,
            Err(e) => {
                return Err(e);
            },
        };
        if !is_digit(ch) {
            break;
        }
        let ghost cur = c.curr_pos as int;
        let d: u32 = (ch as u32) - 48;
        if !overflowed {
            let wide: u128 = (value as u128) * 10 + (d as u128);
            if wide > u64::MAX as u128 {
                overflowed = true;
            } else {
                value = wide as u64;
            }
        }
        let ghost old_buf = buf@;
        buf.push(ch);
        c.skip_char();
        proof {
            lemma_subrange_push(text, p0, cur);
            lemma_digits_value_push(old_buf, ch);
        }
    }
    proof {
        lemma_run_in_bounds(text, p0);
        lemma_run_in_bounds(text, p0 + 1);
        assert(digit_run_end(text, c.curr_pos as int) == c.curr_pos as int);
        assert(buf@ == text.subrange(p0, digit_run_end(text, p0)));
    }
    if overflowed {
        Err(ParseError::NotANumber(buf))
    } else {
        Ok(create_num_obj(value))
    }
}

/// The symbol reader: consumes the maximal run of symbol characters,
/// advancing past each, and yields the accumulated identifier. End of input
/// terminates the run normally. Only valid where the dispatcher has
/// confirmed a symbol character, so the identifier is never empty.
pub fn read_symbol(c: &mut Cursor) -> (r: Result<Value, ParseError>)
    requires
        old(c).wf(),
        old(c).curr_pos < old(c).text@.len(),
        is_symbol_char(old(c).text@[old(c).curr_pos as int]),
    ensures
        final(c).wf(),
        final(c).text@ == old(c).text@,
        old(c).curr_pos < final(c).curr_pos,
        (spec_read_symbol(old(c).text@, old(c).curr_pos as int) matches Ok(t) ==> r matches Ok(v)
            && v@ == t.0 && final(c).curr_pos == t.1),
{
    let ghost text = c.text@;
    let ghost p0 = c.curr_pos as int;
    let mut buf = String::new();
    loop
        invariant
            c.wf(),
            c.text@ == text,
            0 <= p0 <= c.curr_pos as int <= text.len(),
            symbol_run_end(text, p0) == symbol_run_end(text, c.curr_pos as int),
            buf@ == text.subrange(p0, c.curr_pos as int),
        ensures
            c.wf(),
            c.text@ == text,
            0 <= p0 <= c.curr_pos as int <= text.len(),
            symbol_run_end(text, p0) == symbol_run_end(text, c.curr_pos as int),
            buf@ == text.subrange(p0, c.curr_pos as int),
            c.curr_pos as int == text.len() || !is_symbol_char(text[c.curr_pos as int]),
        decreases text.len() - c.curr_pos,
    {
        if !c.has_next_char() {
            break;
        }
        let ch = match c.current_char() {
            Ok(ch) => ch,
            Err(e) => {
                return Err(e);
            },
        };
        if !is_symbol(ch) {
            break;
        }
        let ghost cur = c.curr_pos as int;
        buf.push(ch);
        c.skip_char();
        proof {
            lemma_subrange_push(text, p0, cur);
        }
    }
    proof {
        lemma_run_in_bounds(text, p0);
        lemma_run_in_bounds(text, p0 + 1);
        assert(symbol_run_end(text, c.curr_pos as int) == c.curr_pos as int);
        assert(buf@ == text.subrange(p0, symbol_run_end(text, p0)));
    }
    Ok(create_sym_obj(buf.as_str()))
}

/// The string reader: skips the opening quote, consumes characters up to
/// the closing quote, and yields their accumulation, unescaped. Reaching
/// the end of the input before a closing quote is `UnexpectedEndOfInput`.
pub fn read_str(c: &mut Cursor) -> (r: Result<Value, ParseError>)
    requires
        old(c).wf(),
        old(c).curr_pos < old(c).text@.len(),
        old(c).text@[old(c).curr_pos as int] == '"',
    ensures
        final(c).wf(),
        final(c).text@ == old(c).text@,
        (spec_read_str(old(c).text@, old(c).curr_pos as int) matches Ok(t) ==> r matches Ok(v)
            && v@ == t.0 && final(c).curr_pos == t.1 && old(c).curr_pos < final(c).curr_pos),
        (spec_read_str(old(c).text@, old(c).curr_pos as int) matches Err(e) ==> r matches Err(pe)
            && pe@ == e),
{
    let ghost text = c.text@;
    let ghost p0 = c.curr_pos as int;
    c.skip_char();
    let mut buf = String::new();
    loop
        invariant
            c.wf(),
            c.text@ == text,
            0 <= p0 < p0 + 1 <= c.curr_pos as int <= text.len(),
            close_quote_at(text, p0 + 1) == close_quote_at(text, c.curr_pos as int),
            buf@ == text.subrange(p0 + 1, c.curr_pos as int),
        ensures
            c.wf(),
            c.text@ == text,
            0 <= p0 < p0 + 1 <= c.curr_pos as int <= text.len(),
            close_quote_at(text, p0 + 1) == close_quote_at(text, c.curr_pos as int),
            buf@ == text.subrange(p0 + 1, c.curr_pos as int),
            c.curr_pos as int == text.len() || text[c.curr_pos as int] == '"',
        decreases text.len() - c.curr_pos,
    {
        if !c.has_next_char() {
            break;
        }
        let ch = match c.current_char() {
            Ok(ch) => ch,
            Err(e) => {
                return Err(e);
            },
        };
        if ch == '"' {
            break;
        }
        let ghost cur = c.curr_pos as int;
        buf.push(ch);
        c.skip_char();
        proof {
            lemma_subrange_push(text, p0 + 1, cur);
        }
    }
    proof {
        lemma_run_in_bounds(text, p0 + 1);
        assert(close_quote_at(text, c.curr_pos as int) == c.curr_pos as int);
    }
    if !c.has_next_char() {
        return Err(ParseError::UnexpectedEndOfInput);
    }
    c.skip_char();
    Ok(create_str_obj(buf))
}

/// The dispatcher: inspects the lookahead character and routes to the
/// correct reader. `'('` opens a list, whitespace is skipped, `'"'` opens a
/// string, a digit opens a number, a symbol character opens a symbol;
/// anything else fails with `InvalidCharacter`, and an exhausted cursor
/// with `UnexpectedEndOfInput`. On success exactly one value is returned
/// and the cursor is left immediately past it.
pub fn read_expr(c: &mut Cursor) -> (r: Result<Value, ParseError>)
    requires
        old(c).wf(),
    ensures
        final(c).wf(),
        final(c).text@ == old(c).text@,
        (spec_read_expr(old(c).text@, old(c).curr_pos as int) matches Ok(t) ==> r matches Ok(v)
            && v@ == t.0 && final(c).curr_pos == t.1 && old(c).curr_pos < final(c).curr_pos),
        (spec_read_expr(old(c).text@, old(c).curr_pos as int) matches Err(e) ==> r matches Err(pe)
            && pe@ == e),
    decreases old(c).text@.len() - old(c).curr_pos, 1int,
{
    let chr = match c.current_char() {
        Ok(ch) => ch,
        Err(e) => {
            return Err(e);
        },
    };
    if chr == '(' {
        return read_list(c);
    }
    if chr == ' ' || chr == '\r' || chr == '\n' {
        c.skip_char();
        return read_expr(c);
    }
    if chr == '"' {
        return read_str(c);
    }
    if is_digit(chr) {
        return read_number(c);
    }
    if is_symbol(chr) {
        return read_symbol(c);
    }
    Err(ParseError::InvalidCharacter(chr))
}

/// The list reader: consumes the opening `'('`, reads expressions through
/// the dispatcher until the matching `')'`, and yields them as a list.
/// Running out of input inside the list is `UnexpectedEndOfInput`.
/// Whitespace between elements is consumed by the dispatcher.
#[verifier::loop_isolation(false)]
pub fn read_list(c: &mut Cursor) -> (r: Result<Value, ParseError>)
    requires
        old(c).wf(),
        old(c).curr_pos < old(c).text@.len(),
        old(c).text@[old(c).curr_pos as int] == '(',
    ensures
        final(c).wf(),
        final(c).text@ == old(c).text@,
        (spec_read_list_items(old(c).text@, old(c).curr_pos + 1) matches Ok(t) ==> r matches Ok(v)
            && v@ == SpecValue::List(t.0) && final(c).curr_pos == t.1
            && old(c).curr_pos < final(c).curr_pos),
        (spec_read_list_items(old(c).text@, old(c).curr_pos + 1) matches Err(e) ==> r matches Err(
            pe,
        ) && pe@ == e),
    decreases old(c).text@.len() - old(c).curr_pos, 0int,
{
    let ghost text = c.text@;
    let ghost p1 = c.curr_pos as int + 1;
    let mut list: Vec<Value> = Vec::new();
    c.skip_char();
    proof {
        if let Ok((rest, end)) = spec_read_list_items(text, p1) {
            assert(seq_view(list@) =~= Seq::<SpecValue>::empty());
            assert(seq_view(list@) + rest =~= rest);
        }
    }
    loop
        invariant
            c.wf(),
            c.text@ == text,
            0 < p1 <= c.curr_pos as int <= text.len(),
            (spec_read_list_items(text, c.curr_pos as int) matches Ok(t) ==> spec_read_list_items(
                text,
                p1,
            ) matches Ok(u) && u.0 == seq_view(list@) + t.0 && u.1 == t.1),
            (spec_read_list_items(text, c.curr_pos as int) matches Err(e) ==> spec_read_list_items(
                text,
                p1,
            ) == Err::<(Seq<SpecValue>, int), SpecError>(e)),
        decreases text.len() - c.curr_pos,
    {
        if !c.has_next_char() {
            return Err(ParseError::UnexpectedEndOfInput);
        }
        if c.expect_char(')') {
            let ghost cur = c.curr_pos as int;
            c.skip_char();
            proof {
                assert(spec_read_list_items(text, cur) matches Ok(t) && t.0
                    == Seq::<SpecValue>::empty() && t.1 == cur + 1);
                assert(seq_view(list@) + Seq::<SpecValue>::empty() =~= seq_view(list@));
            }
            return Ok(create_list_obj(list));
        }
        let ghost cur = c.curr_pos as int;
        match read_expr(c) {
            Ok(v) => {
                proof {
                    lemma_reader_progress(text, cur);
                }
                let ghost old_list = list@;
                list.push(v);
                proof {
                    lemma_seq_view_push(old_list, v);
                    if let Ok((rest, end)) = spec_read_list_items(text, c.curr_pos as int) {
                        assert(spec_read_list_items(text, cur) matches Ok(t) && t.0 == seq![v@]
                            + rest && t.1 == end);
                        assert(seq_view(old_list) + (seq![v@] + rest) =~= seq_view(old_list).push(
                            v@,
                        ) + rest);
                    }
                }
            },
            Err(e) => {
                return Err(e);
            },
        }
    }
}

/// Skips the whitespace characters under the cursor, stopping at the first
/// non-whitespace character or at the end of the text.
fn skip_whitespace(c: &mut Cursor)
    requires
        old(c).wf(),
    ensures
        final(c).wf(),
        final(c).text@ == old(c).text@,
        old(c).curr_pos <= final(c).curr_pos,
        final(c).curr_pos == skip_ws_end(old(c).text@, old(c).curr_pos as int),
{
    let ghost text = c.text@;
    let ghost p0 = c.curr_pos as int;
    loop
        invariant
            c.wf(),
            c.text@ == text,
            p0 <= c.curr_pos as int <= text.len(),
            skip_ws_end(text, p0) == skip_ws_end(text, c.curr_pos as int),
        ensures
            c.wf(),
            c.text@ == text,
            p0 <= c.curr_pos as int <= text.len(),
            skip_ws_end(text, p0) == skip_ws_end(text, c.curr_pos as int),
            c.curr_pos as int == text.len() || !is_ws_char(text[c.curr_pos as int]),
        decreases text.len() - c.curr_pos,
    {
        if !c.has_next_char() {
            break;
        }
        let ch = match c.current_char() {
            Ok(ch) => ch,
            Err(e) => {
                return;
            },
        };
        if !(ch == ' ' || ch == '\r' || ch == '\n') {
            break;
        }
        c.skip_char();
    }
}

/// The driver: fails with `EmptyInput` on a zero-length text, and otherwise
/// reads expressions one after the other, skipping the whitespace around
/// them, until the text is exhausted, yielding the top-level values in
/// order. The first failure aborts the parse and is returned alone.
#[verifier::loop_isolation(false)]
pub fn parse_all(text: &str) -> (r: Result<Vec<Value>, ParseError>)
    ensures
        (spec_parse_all(text@) matches Ok(vs) ==> r matches Ok(out) && seq_view(out@) == vs),
        (spec_parse_all(text@) matches Err(e) ==> r matches Err(pe) && pe@ == e),
{
    let mut c = Cursor::new(text.to_owned());
    let ghost t = text@;
    if !c.has_next_char() {
        return Err(ParseError::EmptyInput);
    }
    let mut out: Vec<Value> = Vec::new();
    proof {
        if let Ok(rest) = spec_parse_iter(t, 0) {
            assert(seq_view(out@) =~= Seq::<SpecValue>::empty());
            assert(seq_view(out@) + rest =~= rest);
        }
    }
    loop
        invariant
            c.wf(),
            c.text@ == t,
            0 <= c.curr_pos as int <= t.len(),
            (spec_parse_iter(t, c.curr_pos as int) matches Ok(rest) ==> spec_parse_iter(t, 0)
                matches Ok(all) && all == seq_view(out@) + rest),
            (spec_parse_iter(t, c.curr_pos as int) matches Err(e) ==> spec_parse_iter(t, 0)
                == Err::<Seq<SpecValue>, SpecError>(e)),
        decreases t.len() - c.curr_pos,
    {
        let ghost cur = c.curr_pos as int;
        skip_whitespace(&mut c);
        let ghost p = c.curr_pos as int;
        if !c.has_next_char() {
            proof {
                assert(spec_parse_iter(t, cur) matches Ok(rest) && rest =~= Seq::<
                    SpecValue,
                >::empty());
                assert(seq_view(out@) + Seq::<SpecValue>::empty() =~= seq_view(out@));
            }
            return Ok(out);
        }
        match read_expr(&mut c) {
            Ok(v) => {
                proof {
                    lemma_reader_progress(t, p);
                }
                let ghost old_out = out@;
                out.push(v);
                proof {
                    lemma_seq_view_push(old_out, v);
                    if let Ok(rest) = spec_parse_iter(t, c.curr_pos as int) {
                        assert(spec_parse_iter(t, cur) matches Ok(s) && s == seq![v@] + rest);
                        assert(seq_view(old_out) + (seq![v@] + rest) =~= seq_view(old_out).push(v@)
                            + rest);
                    }
                }
            },
            Err(e) => {
                return Err(e);
            },
        }
    }
}

} // verus!
