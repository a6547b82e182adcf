//! The query grammar, as functions from the input bytes and a position to
//! what is read there and the position after it.
//!
//! ```text
//! query   := '{' selects '}'            (then only whitespace)
//! selects := (select ','?)*            (up to the closing brace or the end)
//! select  := name ('as' name)? ('(' filters ')')? ('{' selects '}')?
//! filters := (filter ','?)*            (up to ')' or the end)
//! filter  := ('skip' | 'take') ':' number | ('after' | 'before') ':' name
//! name    := '"' any bytes but '"' '"' | (letter | '_') (letter | digit | '_')*
//! ```
//! Whitespace may stand before every token.
use crate::mutation::SegmentKey;
use vstd::prelude::*;
use vstd::utf8::{decode_utf8, valid_utf8};

verus! {

/// A filter as plain values.
pub enum FilterView {
    Skip(nat),
    Take(nat),
    After(SegmentKey),
    Before(SegmentKey),
}

/// A selection as plain values.
pub struct SelectView {
    pub name: SegmentKey,
    pub alias: Option<SegmentKey>,
    pub filters: Seq<FilterView>,
    pub subselects: Seq<SelectView>,
}

/// A query error as plain values.
pub enum QueryErrorView {
    UnexpectedChar(char, nat),
    UnexpectedEnd,
    UnknownFilter(Seq<char>, nat),
}

pub open spec fn is_ws(b: u8) -> bool {
    b == 32 || b == 9 || b == 10 || b == 12 || b == 13
}

pub open spec fn is_alpha(b: u8) -> bool {
    (65 <= b <= 90) || (97 <= b <= 122)
}

pub open spec fn is_digit(b: u8) -> bool {
    48 <= b <= 57
}

/// Byte classes scanned over: 0 word (letters, digits, '_'), 1 keyword
/// (letters, '_'), 2 digits, 3 anything but a double quote.
pub open spec fn class_ok(c: int, b: u8) -> bool {
    if c == 0 {
        is_alpha(b) || is_digit(b) || b == 95
    } else if c == 1 {
        is_alpha(b) || b == 95
    } else if c == 2 {
        is_digit(b)
    } else {
        b != 34
    }
}

/// The position after whitespace from `p`.
pub open spec fn skip_ws(s: Seq<u8>, p: int) -> int
    decreases s.len() - p,
{
    if 0 <= p < s.len() && is_ws(s[p]) {
        skip_ws(s, p + 1)
    } else {
        p
    }
}

/// Skipping whitespace stops at the first byte at or after `p` that is not
/// whitespace, or at the end of the input.
pub proof fn lemma_skip_ws_first(s: Seq<u8>, p: int)
    requires
        0 <= p <= s.len(),
    ensures
        p <= skip_ws(s, p) <= s.len(),
        forall|i: int| p <= i < skip_ws(s, p) ==> is_ws(#[trigger] s[i]),
        skip_ws(s, p) < s.len() ==> !is_ws(s[skip_ws(s, p)]),
    decreases s.len() - p,
{
    if p < s.len() && is_ws(s[p]) {
        lemma_skip_ws_first(s, p + 1);
    }
}

/// Before a token the parser passes over exactly the ASCII whitespace bytes
/// (space, tab, line feed, form feed, carriage return), so a query may be
/// spread over several lines: at such a byte skipping goes on past it, at any
/// other byte it stops there.
pub proof fn lemma_skip_ws_ascii(s: Seq<u8>, p: int)
    requires
        0 <= p < s.len(),
    ensures
        (s[p] == 32 || s[p] == 9 || s[p] == 10 || s[p] == 12 || s[p] == 13) ==> skip_ws(s, p) == skip_ws(
            s,
            p + 1,
        ) && skip_ws(s, p) > p,
        !(s[p] == 32 || s[p] == 9 || s[p] == 10 || s[p] == 12 || s[p] == 13) ==> skip_ws(s, p) == p,
{
    if p + 1 <= s.len() {
        lemma_skip_ws_first(s, p + 1);
    }
}

/// The position after the bytes of class `c` from `p`.
pub open spec fn scan(s: Seq<u8>, p: int, c: int) -> int
    decreases s.len() - p,
{
    if 0 <= p < s.len() && class_ok(c, s[p]) {
        scan(s, p + 1, c)
    } else {
        p
    }
}

/// The number that decimal digits stand for.
pub open spec fn dec_value(d: Seq<u8>) -> nat
    decreases d.len(),
{
    if d.len() == 0 {
        0
    } else {
        dec_value(d.drop_last()) * 10 + (d.last() - 48) as nat
    }
}

/// The error for an unexpected byte at `p`, or for the end of the input.
pub open spec fn unexpected_at(s: Seq<u8>, p: int) -> QueryErrorView {
    if 0 <= p < s.len() {
        QueryErrorView::UnexpectedChar(s[p] as char, p as nat)
    } else {
        QueryErrorView::UnexpectedEnd
    }
}

pub open spec fn p_expect(s: Seq<u8>, p0: int, byte: u8) -> Result<int, QueryErrorView> {
    let p = skip_ws(s, p0);
    if 0 <= p < s.len() && s[p] == byte {
        Ok(p + 1)
    } else {
        Err(unexpected_at(s, p))
    }
}

pub open spec fn p_try_byte(s: Seq<u8>, p0: int, byte: u8) -> (bool, int) {
    let p = skip_ws(s, p0);
    if 0 <= p < s.len() && s[p] == byte {
        (true, p + 1)
    } else {
        (false, p)
    }
}

pub open spec fn p_try_keyword(s: Seq<u8>, p0: int, kw: Seq<u8>) -> (bool, int) {
    let p = skip_ws(s, p0);
    let end = p + kw.len();
    if p < 0 || end > s.len() {
        (false, p)
    } else if s.subrange(p, end) != kw {
        (false, p)
    } else if end < s.len() && class_ok(0, s[end]) {
        (false, p)
    } else {
        (true, end)
    }
}

pub open spec fn p_name(s: Seq<u8>, p0: int) -> Result<(SegmentKey, int), QueryErrorView> {
    let p = skip_ws(s, p0);
    if !(0 <= p < s.len()) {
        Err(QueryErrorView::UnexpectedEnd)
    } else if s[p] == 34 {
        let start = p + 1;
        let e = scan(s, start, 3);
        if e >= s.len() {
            Err(QueryErrorView::UnexpectedEnd)
        } else if valid_utf8(s.subrange(start, e)) {
            Ok((SegmentKey::Field(decode_utf8(s.subrange(start, e))), e + 1))
        } else {
            Err(QueryErrorView::UnexpectedChar('?', start as nat))
        }
    } else if is_alpha(s[p]) || s[p] == 95 {
        let e = scan(s, p, 0);
        if valid_utf8(s.subrange(p, e)) {
            Ok((SegmentKey::Field(decode_utf8(s.subrange(p, e))), e))
        } else {
            Err(QueryErrorView::UnexpectedChar('?', p as nat))
        }
    } else {
        Err(QueryErrorView::UnexpectedChar(s[p] as char, p as nat))
    }
}

pub open spec fn p_number(s: Seq<u8>, p0: int) -> Result<(nat, int), QueryErrorView> {
    let p = skip_ws(s, p0);
    let e = scan(s, p, 2);
    if e == p {
        Err(unexpected_at(s, p))
    } else if dec_value(s.subrange(p, e)) <= usize::MAX {
        Ok((dec_value(s.subrange(p, e)), e))
    } else {
        Err(QueryErrorView::UnexpectedChar('?', p as nat))
    }
}

pub open spec fn kw_skip() -> Seq<u8> {
    seq![115u8, 107, 105, 112]
}

pub open spec fn kw_take() -> Seq<u8> {
    seq![116u8, 97, 107, 101]
}

pub open spec fn kw_after() -> Seq<u8> {
    seq![97u8, 102, 116, 101, 114]
}

pub open spec fn kw_before() -> Seq<u8> {
    seq![98u8, 101, 102, 111, 114, 101]
}

pub open spec fn kw_as() -> Seq<u8> {
    seq![97u8, 115]
}

pub open spec fn p_filter(s: Seq<u8>, p0: int) -> Result<(FilterView, int), QueryErrorView> {
    let p = skip_ws(s, p0);
    let e = scan(s, p, 1);
    let kw = s.subrange(p, e);
    match p_expect(s, e, 58) {
        Err(err) => Err(err),
        Ok(p2) => if kw == kw_skip() {
            match p_number(s, p2) {
                Ok((n, p3)) => Ok((FilterView::Skip(n), p3)),
                Err(err) => Err(err),
            }
        } else if kw == kw_take() {
            match p_number(s, p2) {
                Ok((n, p3)) => Ok((FilterView::Take(n), p3)),
                Err(err) => Err(err),
            }
        } else if kw == kw_after() {
            match p_name(s, p2) {
                Ok((n, p3)) => Ok((FilterView::After(n), p3)),
                Err(err) => Err(err),
            }
        } else if kw == kw_before() {
            match p_name(s, p2) {
                Ok((n, p3)) => Ok((FilterView::Before(n), p3)),
                Err(err) => Err(err),
            }
        } else {
            Err(QueryErrorView::UnknownFilter(decode_utf8(kw), p0 as nat))
        },
    }
}

/// Filters from `p0` until ')' or the end, after those in `acc`.
pub open spec fn p_filters(s: Seq<u8>, p0: int, acc: Seq<FilterView>) -> Result<
    (Seq<FilterView>, int),
    QueryErrorView,
>
    decreases s.len() - p0,
{
    let p = skip_ws(s, p0);
    if !(0 <= p < s.len()) || s[p] == 41 {
        Ok((acc, p))
    } else {
        match p_filter(s, p) {
            Err(err) => Err(err),
            Ok((f, p2)) => {
                let p3 = p_try_byte(s, p2, 44).1;
                if p0 < p3 <= s.len() {
                    p_filters(s, p3, acc.push(f))
                } else {
                    Ok((acc.push(f), p3))
                }
            },
        }
    }
}

pub open spec fn p_select(s: Seq<u8>, p0: int) -> Result<(SelectView, int), QueryErrorView>
    decreases s.len() - p0, 0nat,
{
    match p_name(s, p0) {
        Err(err) => Err(err),
        Ok((name, p1)) => {
            let (has_alias, p2) = p_try_keyword(s, p1, kw_as());
            let alias: Result<(Option<SegmentKey>, int), QueryErrorView> = if has_alias {
                match p_name(s, p2) {
                    Ok((a, p3)) => Ok((Some(a), p3)),
                    Err(err) => Err(err),
                }
            } else {
                Ok((None, p2))
            };
            match alias {
                Err(err) => Err(err),
                Ok((alias, p3)) => {
                    let (has_filters, p4) = p_try_byte(s, p3, 40);
                    let filters: Result<(Seq<FilterView>, int), QueryErrorView> = if has_filters {
                        match p_filters(s, p4, Seq::empty()) {
                            Err(err) => Err(err),
                            Ok((fs, p5)) => match p_expect(s, p5, 41) {
                                Err(err) => Err(err),
                                Ok(p6) => Ok((fs, p6)),
                            },
                        }
                    } else {
                        Ok((Seq::empty(), p4))
                    };
                    match filters {
                        Err(err) => Err(err),
                        Ok((filters, p6)) => {
                            let (has_sub, p7) = p_try_byte(s, p6, 123);
                            if has_sub {
                                if p0 < p7 <= s.len() {
                                    match p_selects(s, p7, 125, Seq::empty()) {
                                        Err(err) => Err(err),
                                        Ok((subs, p8)) => match p_expect(s, p8, 125) {
                                            Err(err) => Err(err),
                                            Ok(p9) => Ok(
                                                (
                                                    SelectView {
                                                        name,
                                                        alias,
                                                        filters,
                                                        subselects: subs,
                                                    },
                                                    p9,
                                                ),
                                            ),
                                        },
                                    }
                                } else {
                                    Err(QueryErrorView::UnexpectedEnd)
                                }
                            } else {
                                Ok(
                                    (
                                        SelectView { name, alias, filters, subselects: Seq::empty() },
                                        p7,
                                    ),
                                )
                            }
                        },
                    }
                },
            }
        },
    }
}

/// Selections from `p0` until `term` or the end, after those in `acc`.
pub open spec fn p_selects(s: Seq<u8>, p0: int, term: u8, acc: Seq<SelectView>) -> Result<
    (Seq<SelectView>, int),
    QueryErrorView,
>
    decreases s.len() - p0, 1nat,
{
    let p = skip_ws(s, p0);
    if !(0 <= p0 && p0 <= p <= s.len()) || p == s.len() || s[p] == term {
        Ok((acc, p))
    } else {
        match p_select(s, p) {
            Err(err) => Err(err),
            Ok((sel, p2)) => {
                let p3 = p_try_byte(s, p2, 44).1;
                if p0 < p3 <= s.len() {
                    p_selects(s, p3, term, acc.push(sel))
                } else {
                    Ok((acc.push(sel), p3))
                }
            },
        }
    }
}

/// The selections of a whole query, or the first error.
pub open spec fn p_query(s: Seq<u8>) -> Result<Seq<SelectView>, QueryErrorView> {
    match p_expect(s, 0, 123) {
        Err(err) => Err(err),
        Ok(p1) => match p_selects(s, p1, 125, Seq::empty()) {
            Err(err) => Err(err),
            Ok((sels, p2)) => match p_expect(s, p2, 125) {
                Err(err) => Err(err),
                Ok(p3) => {
                    let p4 = skip_ws(s, p3);
                    if p4 != s.len() {
                        Err(unexpected_at(s, p4))
                    } else {
                        Ok(sels)
                    }
                },
            },
        },
    }
}

} // verus!
