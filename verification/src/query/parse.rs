//! The query parser: recursive descent over the bytes of the query.
use crate::mutation::Segment;
use crate::query::spec::{
    class_ok, dec_value, is_digit, is_ws, kw_after, kw_as, kw_before, kw_skip, kw_take,
    p_expect, p_filter, p_filters, p_name, p_number, p_query, p_select, p_selects, p_try_byte,
    p_try_keyword, scan, skip_ws, unexpected_at, FilterView, QueryErrorView, SelectView,
};
use crate::query::{filter_views, select_view, select_views, Filter, Query, QueryError, Select};
use crate::text::utf8_str;
use vstd::prelude::*;
use vstd::string::StringSliceAdditionalSpecFns;
use vstd::utf8::{decode_utf8, encode_utf8_decode_utf8};

verus! {

broadcast use encode_utf8_decode_utf8;

pub(crate) struct Parser<'a> {
    input: &'a [u8],
    pos: usize,
}

/// The owned string of valid UTF-8 bytes.
fn owned_text(bytes: &[u8]) -> (r: Option<String>)
    ensures
        r is Some <==> vstd::utf8::valid_utf8(bytes@),
        r matches Some(t) ==> t@ == decode_utf8(bytes@),
{
    match utf8_str(bytes) {
        Some(s) => {
            let t = s.to_owned();
            proof {
                assert(s.spec_bytes() == vstd::utf8::encode_utf8(s@));
            }
            Some(t)
        },
        None => None,
    }
}

fn ws_byte(b: u8) -> (r: bool)
    ensures
        r == is_ws(b),
{
    b == 32 || b == 9 || b == 10 || b == 12 || b == 13
}

fn in_class(c: u8, b: u8) -> (r: bool)
    ensures
        r == class_ok(c as int, b),
{
    let alpha = (65 <= b && b <= 90) || (97 <= b && b <= 122);
    let digit = 48 <= b && b <= 57;
    if c == 0 {
        alpha || digit || b == 95
    } else if c == 1 {
        alpha || b == 95
    } else if c == 2 {
        digit
    } else {
        b != 34
    }
}

fn unexpected(s: &[u8], p: usize) -> (r: QueryError)
    ensures
        r@ == unexpected_at(s@, p as int),
{
    if p < s.len() {
        QueryError::UnexpectedChar(s[p] as char, p)
    } else {
        QueryError::UnexpectedEnd
    }
}

impl<'a> Parser<'a> {
    pub(crate) closed spec fn input_spec(&self) -> Seq<u8> {
        self.input@
    }

    pub(crate) closed spec fn pos_spec(&self) -> int {
        self.pos as int
    }

    pub(crate) closed spec fn ok(&self) -> bool {
        self.pos <= self.input@.len()
    }

    pub(crate) fn new(input: &'a str) -> (r: Parser<'a>)
        ensures
            r.input_spec() == input.spec_bytes(),
            r.pos_spec() == 0,
            r.ok(),
    {
        Parser { input: input.as_bytes(), pos: 0 }
    }

    fn skip_ws(&mut self)
        requires
            old(self).ok(),
        ensures
            final(self).ok(),
            final(self).input_spec() == old(self).input_spec(),
            final(self).pos_spec() == skip_ws(old(self).input_spec(), old(self).pos_spec()),
    {
        while self.pos < self.input.len() && ws_byte(self.input[self.pos])
            invariant
                self.pos <= self.input@.len(),
                self.input@ == old(self).input@,
                skip_ws(self.input@, old(self).pos as int) == skip_ws(self.input@, self.pos as int),
            decreases self.input.len() - self.pos,
        {
            self.pos = self.pos + 1;
        }
    }

    fn scan(&mut self, c: u8)
        requires
            old(self).ok(),
        ensures
            final(self).ok(),
            final(self).input_spec() == old(self).input_spec(),
            final(self).pos_spec() == scan(old(self).input_spec(), old(self).pos_spec(), c as int),
    {
        while self.pos < self.input.len() && in_class(c, self.input[self.pos])
            invariant
                self.pos <= self.input@.len(),
                self.input@ == old(self).input@,
                scan(self.input@, old(self).pos as int, c as int) == scan(self.input@, self.pos as int, c as int),
            decreases self.input.len() - self.pos,
        {
            self.pos = self.pos + 1;
        }
    }

    fn expect(&mut self, byte: u8) -> (r: Result<(), QueryError>)
        requires
            old(self).ok(),
        ensures
            final(self).ok(),
            final(self).input_spec() == old(self).input_spec(),
            match r {
                Ok(()) => p_expect(old(self).input_spec(), old(self).pos_spec(), byte) == Ok::<int, QueryErrorView>(final(self).pos_spec()),
                Err(e) => p_expect(old(self).input_spec(), old(self).pos_spec(), byte) == Err::<int, QueryErrorView>(e@),
            },
    {
        self.skip_ws();
        if self.pos < self.input.len() && self.input[self.pos] == byte {
            self.pos = self.pos + 1;
            Ok(())
        } else {
            Err(unexpected(self.input, self.pos))
        }
    }

    fn try_byte(&mut self, byte: u8) -> (r: bool)
        requires
            old(self).ok(),
        ensures
            final(self).ok(),
            final(self).input_spec() == old(self).input_spec(),
            (r, final(self).pos_spec()) == p_try_byte(old(self).input_spec(), old(self).pos_spec(), byte),
    {
        self.skip_ws();
        if self.pos < self.input.len() && self.input[self.pos] == byte {
            self.pos = self.pos + 1;
            true
        } else {
            false
        }
    }

    /// Matches a keyword followed by a word boundary, so that "as" does not
    /// match inside "assign".
    fn try_keyword(&mut self, kw: &[u8]) -> (r: bool)
        requires
            old(self).ok(),
        ensures
            final(self).ok(),
            final(self).input_spec() == old(self).input_spec(),
            (r, final(self).pos_spec()) == p_try_keyword(old(self).input_spec(), old(self).pos_spec(), kw@),
    {
        self.skip_ws();
        if kw.len() > self.input.len() - self.pos {
            return false;
        }
        let end = self.pos + kw.len();
        if !crate::bytes::bytes_eq(&self.input[self.pos..end], kw) {
            return false;
        }
        if end < self.input.len() && in_class(0, self.input[end]) {
            return false;
        }
        self.pos = end;
        true
    }

    fn parse_name(&mut self) -> (r: Result<Segment, QueryError>)
        requires
            old(self).ok(),
        ensures
            final(self).ok(),
            final(self).input_spec() == old(self).input_spec(),
            match r {
                Ok(n) => p_name(old(self).input_spec(), old(self).pos_spec()) == Ok::<(crate::mutation::SegmentKey, int), QueryErrorView>((n@, final(self).pos_spec())),
                Err(e) => p_name(old(self).input_spec(), old(self).pos_spec()) == Err::<(crate::mutation::SegmentKey, int), QueryErrorView>(e@),
            },
    {
        self.skip_ws();
        if self.pos >= self.input.len() {
            return Err(QueryError::UnexpectedEnd);
        }
        let b = self.input[self.pos];
        if b == 34 {
            self.pos = self.pos + 1;
            let start = self.pos;
            proof {
                lemma_scan_class(self.input@, start as int, 3);
            }
            self.scan(3);
            if self.pos >= self.input.len() {
                return Err(QueryError::UnexpectedEnd);
            }
            let text = owned_text(&self.input[start..self.pos]);
            match text {
                Some(t) => {
                    self.pos = self.pos + 1;
                    Ok(Segment::Field(t))
                },
                None => Err(QueryError::UnexpectedChar('?', start)),
            }
        } else if in_class(1, b) {
            let start = self.pos;
            proof {
                lemma_scan_class(self.input@, start as int, 0);
            }
            self.scan(0);
            let text = owned_text(&self.input[start..self.pos]);
            match text {
                Some(t) => Ok(Segment::Field(t)),
                None => Err(QueryError::UnexpectedChar('?', start)),
            }
        } else {
            Err(QueryError::UnexpectedChar(b as char, self.pos))
        }
    }

    fn parse_number(&mut self) -> (r: Result<usize, QueryError>)
        requires
            old(self).ok(),
        ensures
            final(self).ok(),
            final(self).input_spec() == old(self).input_spec(),
            match r {
                Ok(n) => p_number(old(self).input_spec(), old(self).pos_spec()) == Ok::<(nat, int), QueryErrorView>((n as nat, final(self).pos_spec())),
                Err(e) => p_number(old(self).input_spec(), old(self).pos_spec()) == Err::<(nat, int), QueryErrorView>(e@),
            },
    {
        self.skip_ws();
        let start = self.pos;
        self.scan(2);
        if self.pos == start {
            return Err(unexpected(self.input, self.pos));
        }
        let mut value: usize = 0;
        let mut i: usize = start;
        let ghost s0 = self.input@;
        let ghost e0 = self.pos;
        proof {
            assert(self.input@.subrange(start as int, start as int) =~= Seq::<u8>::empty());
            lemma_scan_class(self.input@, start as int, 2);
        }
        while i < self.pos
            invariant
                self.input@ == s0,
                s0 == old(self).input@,
                self.pos == e0,
                start == skip_ws(s0, old(self).pos as int),
                e0 == scan(s0, start as int, 2),
                start <= i <= self.pos <= self.input@.len(),
                value as nat == dec_value(self.input@.subrange(start as int, i as int)),
                forall|j: int| start <= j < self.pos ==> is_digit(#[trigger] self.input@[j]),
            decreases self.pos - i,
        {
            let d = (self.input[i] - 48) as usize;
            proof {
                assert(self.input@.subrange(start as int, i + 1).drop_last() =~= self.input@.subrange(start as int, i as int));
                lemma_dec_value_grows(self.input@.subrange(start as int, i + 1));
            }
            match value.checked_mul(10) {
                None => {
                    proof {
                        lemma_dec_value_prefix_mono(self.input@.subrange(start as int, self.pos as int), (i + 1 - start) as int);
                        assert(self.input@.subrange(start as int, self.pos as int).subrange(0, (i + 1 - start) as int) =~= self.input@.subrange(start as int, i + 1));
                    }
                    return Err(QueryError::UnexpectedChar('?', start));
                },
                Some(v10) => match v10.checked_add(d) {
                    None => {
                        proof {
                            lemma_dec_value_prefix_mono(self.input@.subrange(start as int, self.pos as int), (i + 1 - start) as int);
                            assert(self.input@.subrange(start as int, self.pos as int).subrange(0, (i + 1 - start) as int) =~= self.input@.subrange(start as int, i + 1));
                        }
                        return Err(QueryError::UnexpectedChar('?', start));
                    },
                    Some(v) => {
                        value = v;
                    },
                },
            }
            i = i + 1;
        }
        Ok(value)
    }

    fn parse_filter(&mut self) -> (r: Result<Filter, QueryError>)
        requires
            old(self).ok(),
        ensures
            final(self).ok(),
            final(self).input_spec() == old(self).input_spec(),
            match r {
                Ok(f) => p_filter(old(self).input_spec(), old(self).pos_spec()) == Ok::<(FilterView, int), QueryErrorView>((f@, final(self).pos_spec())),
                Err(e) => p_filter(old(self).input_spec(), old(self).pos_spec()) == Err::<(FilterView, int), QueryErrorView>(e@),
            },
    {
        let kw_pos = self.pos;
        self.skip_ws();
        let start = self.pos;
        proof {
            lemma_scan_class(self.input@, start as int, 1);
        }
        self.scan(1);
        let kw_end = self.pos;
        self.expect(58)?;
        let kw = &self.input[start..kw_end];
        let skip: [u8; 4] = [115, 107, 105, 112];
        let take: [u8; 4] = [116, 97, 107, 101];
        let after: [u8; 5] = [97, 102, 116, 101, 114];
        let before: [u8; 6] = [98, 101, 102, 111, 114, 101];
        proof {
            assert(skip@ =~= kw_skip());
            assert(take@ =~= kw_take());
            assert(after@ =~= kw_after());
            assert(before@ =~= kw_before());
        }
        if crate::bytes::bytes_eq(kw, skip.as_slice()) {
            Ok(Filter::Skip(self.parse_number()?))
        } else if crate::bytes::bytes_eq(kw, take.as_slice()) {
            Ok(Filter::Take(self.parse_number()?))
        } else if crate::bytes::bytes_eq(kw, after.as_slice()) {
            Ok(Filter::After(self.parse_name()?))
        } else if crate::bytes::bytes_eq(kw, before.as_slice()) {
            Ok(Filter::Before(self.parse_name()?))
        } else {
            match owned_text(kw) {
                Some(t) => Err(QueryError::UnknownFilter(t, kw_pos)),
                None => {
                    proof {
                        lemma_scan_class(self.input@, start as int, 1);
                        lemma_ascii_valid(kw@);
                    }
                    Err(QueryError::UnknownFilter(String::new(), kw_pos))
                },
            }
        }
    }

    fn parse_filters(&mut self) -> (r: Result<Vec<Filter>, QueryError>)
        requires
            old(self).ok(),
        ensures
            final(self).ok(),
            final(self).input_spec() == old(self).input_spec(),
            match r {
                Ok(fs) => p_filters(old(self).input_spec(), old(self).pos_spec(), Seq::empty()) == Ok::<(Seq<FilterView>, int), QueryErrorView>((filter_views(fs@), final(self).pos_spec())),
                Err(e) => p_filters(old(self).input_spec(), old(self).pos_spec(), Seq::empty()) == Err::<(Seq<FilterView>, int), QueryErrorView>(e@),
            },
    {
        let mut filters: Vec<Filter> = Vec::new();
        let ghost s = self.input@;
        proof {
            assert(filter_views(filters@) =~= Seq::<FilterView>::empty());
        }
        loop
            invariant
                self.ok(),
                self.input@ == s,
                s == old(self).input_spec(),
                p_filters(s, old(self).pos_spec(), Seq::empty()) == p_filters(s, self.pos as int, filter_views(filters@)),
            decreases s.len() - self.pos,
        {
            let p0 = self.pos;
            self.skip_ws();
            if self.pos >= self.input.len() || self.input[self.pos] == 41 {
                return Ok(filters);
            }
            let f = self.parse_filter()?;
            let ghost before = filters@;
            filters.push(f);
            proof {
                assert(filter_views(filters@) =~= filter_views(before).push(f@));
            }
            self.try_byte(44);
            if self.pos <= p0 {
                return Ok(filters);
            }
        }
    }

    fn parse_select(&mut self) -> (r: Result<Select, QueryError>)
        requires
            old(self).ok(),
        ensures
            final(self).ok(),
            final(self).input_spec() == old(self).input_spec(),
            match r {
                Ok(sel) => p_select(old(self).input_spec(), old(self).pos_spec()) == Ok::<(SelectView, int), QueryErrorView>((select_view(sel), final(self).pos_spec())),
                Err(e) => p_select(old(self).input_spec(), old(self).pos_spec()) == Err::<(SelectView, int), QueryErrorView>(e@),
            },
        decreases old(self).input_spec().len() - old(self).pos_spec(), 0nat,
    {
        let p0 = self.pos;
        let name = self.parse_name()?;
        let as_kw: [u8; 2] = [97, 115];
        proof {
            assert(as_kw@ =~= kw_as());
        }
        let alias = if self.try_keyword(as_kw.as_slice()) {
            Some(self.parse_name()?)
        } else {
            None
        };
        let filters = if self.try_byte(40) {
            let f = self.parse_filters()?;
            self.expect(41)?;
            f
        } else {
            proof {
                assert(filter_views(Seq::<Filter>::empty()) =~= Seq::<FilterView>::empty());
            }
            Vec::new()
        };
        if self.try_byte(123) {
            if self.pos <= p0 {
                return Err(QueryError::UnexpectedEnd);
            }
            let subs = self.parse_selects(125)?;
            self.expect(125)?;
            Ok(Select::new(name, alias, filters, subs))
        } else {
            proof {
                assert(select_views(Seq::<Select>::empty()) =~= Seq::<SelectView>::empty());
            }
            Ok(Select::new(name, alias, filters, Vec::new()))
        }
    }

    fn parse_selects(&mut self, term: u8) -> (r: Result<Vec<Select>, QueryError>)
        requires
            old(self).ok(),
        ensures
            final(self).ok(),
            final(self).input_spec() == old(self).input_spec(),
            match r {
                Ok(v) => p_selects(old(self).input_spec(), old(self).pos_spec(), term, Seq::empty()) == Ok::<(Seq<SelectView>, int), QueryErrorView>((select_views(v@), final(self).pos_spec())),
                Err(e) => p_selects(old(self).input_spec(), old(self).pos_spec(), term, Seq::empty()) == Err::<(Seq<SelectView>, int), QueryErrorView>(e@),
            },
        decreases old(self).input_spec().len() - old(self).pos_spec(), 1nat,
    {
        let mut selects: Vec<Select> = Vec::new();
        let ghost s = self.input@;
        let ghost start = self.pos as int;
        proof {
            assert(select_views(selects@) =~= Seq::<SelectView>::empty());
        }
        loop
            invariant
                self.ok(),
                self.input@ == s,
                s == old(self).input_spec(),
                start == old(self).pos_spec(),
                start <= self.pos,
                p_selects(s, start, term, Seq::empty()) == p_selects(s, self.pos as int, term, select_views(selects@)),
            decreases s.len() - self.pos,
        {
            let p0 = self.pos;
            proof {
                lemma_skip_ws_bounds(s, p0 as int);
            }
            self.skip_ws();
            if self.pos >= self.input.len() || self.input[self.pos] == term {
                return Ok(selects);
            }
            let sel = self.parse_select()?;
            let ghost before = selects@;
            selects.push(sel);
            proof {
                lemma_select_views_push(before, sel);
            }
            self.try_byte(44);
            if self.pos <= p0 {
                return Ok(selects);
            }
        }
    }
}

/// Parses a whole query.
pub(crate) fn parse_query(query: &str) -> (r: Result<Query, QueryError>)
    ensures
        match r {
            Ok(q) => p_query(query.spec_bytes()) == Ok::<Seq<SelectView>, QueryErrorView>(select_views(q.selects_spec())),
            Err(e) => p_query(query.spec_bytes()) == Err::<Seq<SelectView>, QueryErrorView>(e@),
        },
{
    let mut p = Parser::new(query);
    p.expect(123)?;
    let selects = p.parse_selects(125)?;
    p.expect(125)?;
    p.skip_ws();
    if p.pos != p.input.len() {
        return Err(unexpected(p.input, p.pos));
    }
    Ok(Query::new(selects))
}

proof fn lemma_select_views_push(v: Seq<Select>, x: Select)
    ensures
        select_views(v.push(x)) == select_views(v).push(select_view(x)),
    decreases v.len(),
{
    if v.len() == 0 {
        assert(v.push(x).drop_first() =~= Seq::<Select>::empty());
        assert(v.push(x)[0] == x);
        assert(select_views(Seq::<Select>::empty()) == Seq::<SelectView>::empty());
        assert(select_views(v) == Seq::<SelectView>::empty());
        assert(select_views(v.push(x)) == seq![select_view(x)] + Seq::<SelectView>::empty());
        assert(select_views(v.push(x)) =~= select_views(v).push(select_view(x)));
    } else {
        assert(v.push(x).drop_first() =~= v.drop_first().push(x));
        assert(v.push(x)[0] == v[0]);
        lemma_select_views_push(v.drop_first(), x);
        assert(select_views(v.push(x)) == seq![select_view(v[0])] + select_views(v.drop_first().push(x)));
        assert(select_views(v) == seq![select_view(v[0])] + select_views(v.drop_first()));
        assert(select_views(v.push(x)) =~= select_views(v).push(select_view(x)));
    }
}

proof fn lemma_skip_ws_bounds(s: Seq<u8>, p: int)
    requires
        0 <= p <= s.len(),
    ensures
        p <= skip_ws(s, p) <= s.len(),
    decreases s.len() - p,
{
    if p < s.len() && is_ws(s[p]) {
        lemma_skip_ws_bounds(s, p + 1);
    }
}

/// Every byte scanned over is of the class.
proof fn lemma_scan_class(s: Seq<u8>, p: int, c: int)
    requires
        0 <= p <= s.len(),
    ensures
        p <= scan(s, p, c) <= s.len(),
        forall|j: int| p <= j < scan(s, p, c) ==> class_ok(c, #[trigger] s[j]),
    decreases s.len() - p,
{
    if p < s.len() && class_ok(c, s[p]) {
        lemma_scan_class(s, p + 1, c);
    }
}

proof fn lemma_dec_value_grows(d: Seq<u8>)
    requires
        d.len() > 0,
        is_digit(d.last()),
    ensures
        dec_value(d) >= dec_value(d.drop_last()) * 10,
{
}

/// The value of a prefix of the digits is at most the value of all of them.
proof fn lemma_dec_value_prefix_mono(d: Seq<u8>, k: int)
    requires
        0 <= k <= d.len(),
        forall|j: int| 0 <= j < d.len() ==> is_digit(#[trigger] d[j]),
    ensures
        dec_value(d.subrange(0, k)) <= dec_value(d),
    decreases d.len() - k,
{
    if k < d.len() {
        lemma_dec_value_prefix_mono(d, k + 1);
        let e = d.subrange(0, k + 1);
        assert(e.drop_last() =~= d.subrange(0, k));
        assert(is_digit(e.last()));
        assert(dec_value(e) == dec_value(d.subrange(0, k)) * 10 + (e.last() - 48) as nat);
    } else {
        assert(d.subrange(0, k) =~= d);
    }
}

/// Bytes below 128 are valid UTF-8.
proof fn lemma_ascii_valid(b: Seq<u8>)
    requires
        forall|j: int| 0 <= j < b.len() ==> #[trigger] b[j] < 128,
    ensures
        vstd::utf8::valid_utf8(b),
    decreases b.len(),
{
    if b.len() > 0 {
        let x = b[0];
        assert(x < 128);
        assert((x & 0x7f) <= 0x7f) by (bit_vector);
        assert(b.subrange(1, b.len() as int) =~= b.drop_first());
        assert forall|j: int| 0 <= j < b.drop_first().len() implies #[trigger] b.drop_first()[j] < 128 by {
            assert(b.drop_first()[j] == b[j + 1]);
        }
        lemma_ascii_valid(b.drop_first());
    }
}

} // verus!
