use vstd::prelude::*;

verus! {

/// Whether `c` has Unicode's White_Space property.
pub open spec fn whitespace_char(c: char) -> bool {
    let u = c as u32;
    (0x9 <= u <= 0xD) || u == 0x20 || u == 0x85 || u == 0xA0 || u == 0x1680 || (0x2000 <= u <= 0x200A) || u
        == 0x2028 || u == 0x2029 || u == 0x202F || u == 0x205F || u == 0x3000
}

/// Whether `c` is alphabetic or numeric in Unicode's sense.
pub uninterp spec fn alphanumeric_char(c: char) -> bool;

/// Whether `c` is whitespace in Unicode's sense.
fn is_whitespace(c: char) -> (r: bool)
    ensures
        r == whitespace_char(c),
{
    let u = c as u32;
    (0x9 <= u && u <= 0xD) || u == 0x20 || u == 0x85 || u == 0xA0 || u == 0x1680 || (0x2000 <= u && u <= 0x200A)
        || u == 0x2028 || u == 0x2029 || u == 0x202F || u == 0x205F || u == 0x3000
}

/// Relies on `char::is_alphanumeric`: `c` is alphabetic or numeric in Unicode.
#[verifier::external_body]
fn is_alphanumeric(c: char) -> (r: bool)
    ensures
        r == alphanumeric_char(c),
{
    c.is_alphanumeric()
}

/// An ASCII decimal digit.
pub open spec fn digit_char(c: char) -> bool {
    '0' <= c <= '9'
}

/// Whether `c` is an ASCII decimal digit.
fn is_digit(c: char) -> (r: bool)
    ensures
        r == digit_char(c),
{
    '0' <= c && c <= '9'
}

/// The value of the decimal digits `d`.
pub open spec fn decimal(d: Seq<char>) -> nat
    decreases d.len(),
{
    if d.len() == 0 {
        0
    } else {
        decimal(d.drop_last()) * 10 + ((d.last() as u32 - '0' as u32) as nat)
    }
}

/// Where the run of characters satisfying `f` that starts at `p` ends.
pub open spec fn span_end(t: Seq<char>, p: int, f: spec_fn(char) -> bool) -> int
    decreases t.len() - p,
{
    if 0 <= p < t.len() && f(t[p]) {
        span_end(t, p + 1, f)
    } else {
        p
    }
}

/// Where the whitespace from `p` ends.
pub open spec fn skip_ws(t: Seq<char>, p: int) -> int {
    span_end(t, p, |c: char| whitespace_char(c))
}

/// Where the alphanumeric run from `p` ends.
pub open spec fn alnum_end(t: Seq<char>, p: int) -> int {
    span_end(t, p, |c: char| alphanumeric_char(c))
}

/// Where the decimal digits from `p` end.
pub open spec fn digit_end(t: Seq<char>, p: int) -> int {
    span_end(t, p, |c: char| digit_char(c))
}

/// The name at `p`: its alphanumeric run, if that is not empty and does not
/// start with a digit.
pub open spec fn ident_at(t: Seq<char>, p: int) -> Option<Seq<char>> {
    let e = alnum_end(t, p);
    if e > p && !digit_char(t[p]) {
        Some(t.subrange(p, e))
    } else {
        None
    }
}

/// The byte written by the digits at `p`, if there are some and their value is below 256.
pub open spec fn number_at(t: Seq<char>, p: int) -> Option<u8> {
    let d = t.subrange(p, digit_end(t, p));
    if d.len() > 0 && decimal(d) <= 255 {
        Some(decimal(d) as u8)
    } else {
        None
    }
}

/// `w` is written at `p`.
pub open spec fn word_at(t: Seq<char>, p: int, w: Seq<char>) -> bool {
    0 <= p && p + w.len() <= t.len() && t.subrange(p, p + w.len()) == w
}

pub proof fn lemma_span_end(t: Seq<char>, p: int, q: int, f: spec_fn(char) -> bool)
    requires
        0 <= p <= q <= t.len(),
        forall|j: int| p <= j < q ==> f(#[trigger] t[j]),
        q == t.len() || !f(t[q]),
    ensures
        span_end(t, p, f) == q,
    decreases q - p,
{
    if p < q {
        lemma_span_end(t, p + 1, q, f);
    }
}

pub proof fn lemma_span_bounds(t: Seq<char>, p: int, f: spec_fn(char) -> bool)
    requires
        0 <= p <= t.len(),
    ensures
        p <= span_end(t, p, f) <= t.len(),
    decreases t.len() - p,
{
    if p < t.len() && f(t[p]) {
        lemma_span_bounds(t, p + 1, f);
    }
}

/// Line feeds in `s`: the line, counted from 0, that follows `s`.
pub open spec fn line_of(s: Seq<char>) -> nat
    decreases s.len(),
{
    if s.len() == 0 {
        0
    } else {
        line_of(s.drop_last()) + if s.last() == '\n' { 1nat } else { 0nat }
    }
}

/// Characters after the last line feed of `s`: the column, counted from 0, that follows `s`.
pub open spec fn column_of(s: Seq<char>) -> nat
    decreases s.len(),
{
    if s.len() == 0 {
        0
    } else if s.last() == '\n' {
        0
    } else {
        column_of(s.drop_last()) + 1
    }
}

/// What a parser sees: the text and how far it has read.
pub struct Cursor {
    pub text: Seq<char>,
    pub pos: int,
}

/// A cursor over program text with one character of lookahead.
pub struct Parser {
    text: Vec<char>,
    pos: usize,
}

impl View for Parser {
    type V = Cursor;

    closed spec fn view(&self) -> Cursor {
        Cursor { text: self.text@, pos: self.pos as int }
    }
}

impl Parser {
    /// The cursor lies within the text.
    pub open spec fn wf(&self) -> bool {
        0 <= self@.pos <= self@.text.len()
    }

    /// A parser at the start of `text`.
    pub fn new(text: Vec<char>) -> (r: Self)
        ensures
            r.wf(),
            r@ == (Cursor { text: text@, pos: 0 }),
    {
        Parser { text, pos: 0 }
    }

    /// Steps over one character.
    fn next(&mut self) -> (r: Option<char>)
        requires
            old(self).wf(),
        ensures
            final(self).wf(),
            final(self)@.text == old(self)@.text,
            old(self)@.pos < old(self)@.text.len() ==> r == Some(old(self)@.text[old(self)@.pos])
                && final(self)@.pos == old(self)@.pos + 1,
            old(self)@.pos == old(self)@.text.len() ==> r is None && final(self)@ == old(self)@,
    {
        if self.pos < self.text.len() {
            let c = self.text[self.pos];
            self.pos = self.pos + 1;
            Some(c)
        } else {
            None
        }
    }

    /// Where the cursor is: its line and its column, both counted from 0.
    pub fn location(&self) -> (r: (usize, usize))
        requires
            self.wf(),
        ensures
            r.0 == line_of(self@.text.take(self@.pos)),
            r.1 == column_of(self@.text.take(self@.pos)),
    {
        let mut line: usize = 0;
        let mut column: usize = 0;
        let mut k: usize = 0;
        while k < self.pos
            invariant
                self.wf(),
                k <= self@.pos,
                line <= k,
                column <= k,
                line == line_of(self@.text.take(k as int)),
                column == column_of(self@.text.take(k as int)),
            decreases self.pos - k,
        {
            proof {
                assert(self@.text.take(k + 1).drop_last() =~= self@.text.take(k as int));
            }
            if self.text[k] == '\n' {
                line = line + 1;
                column = 0;
            } else {
                column = column + 1;
            }
            k = k + 1;
        }
        (line, column)
    }

    /// Nothing is left to read.
    pub fn is_empty(&self) -> (r: bool)
        requires
            self.wf(),
        ensures
            r == (self@.pos == self@.text.len()),
    {
        self.pos >= self.text.len()
    }

    /// Steps over `c` if it comes next.
    pub fn accept(&mut self, c: char) -> (r: Option<()>)
        requires
            old(self).wf(),
        ensures
            final(self).wf(),
            final(self)@.text == old(self)@.text,
            r is Some <==> (old(self)@.pos < old(self)@.text.len() && old(self)@.text[old(self)@.pos] == c),
            r is Some ==> final(self)@.pos == old(self)@.pos + 1,
            r is None ==> final(self)@ == old(self)@,
    {
        if self.pos < self.text.len() && self.text[self.pos] == c {
            let _ = self.next();
            Some(())
        } else {
            None
        }
    }

    /// Steps over the next character if `f` holds of it, and returns it.
    pub fn accept_with<F: Fn(char) -> bool>(&mut self, f: F) -> (r: Option<char>)
        requires
            old(self).wf(),
            forall|c: char| f.requires((c,)),
        ensures
            final(self).wf(),
            final(self)@.text == old(self)@.text,
            r is Some ==> old(self)@.pos < old(self)@.text.len() && r == Some(old(self)@.text[old(self)@.pos])
                && f.ensures((r->Some_0,), true) && final(self)@.pos == old(self)@.pos + 1,
            r is None ==> final(self)@ == old(self)@ && (old(self)@.pos < old(self)@.text.len()
                ==> f.ensures((old(self)@.text[old(self)@.pos],), false)),
    {
        if self.pos < self.text.len() {
            let c = self.text[self.pos];
            if f(c) {
                let _ = self.next();
                Some(c)
            } else {
                None
            }
        } else {
            None
        }
    }

    /// Steps over `s` if the text continues with it.
    pub fn accept_str(&mut self, s: &[char]) -> (r: Option<()>)
        requires
            old(self).wf(),
        ensures
            final(self).wf(),
            final(self)@.text == old(self)@.text,
            r is Some <==> (old(self)@.pos + s@.len() <= old(self)@.text.len() && old(self)@.text.subrange(
                old(self)@.pos,
                old(self)@.pos + s@.len(),
            ) == s@),
            r is Some ==> final(self)@.pos == old(self)@.pos + s@.len(),
            r is None ==> final(self)@ == old(self)@,
    {
        if s.len() > self.text.len() - self.pos {
            return None;
        }
        let mut k: usize = 0;
        while k < s.len()
            invariant
                self.wf(),
                self@ == old(self)@,
                self@.pos + s@.len() <= self@.text.len(),
                self@.text.len() <= usize::MAX,
                k <= s@.len(),
                forall|j: int| 0 <= j < k ==> self@.text[self@.pos + j] == s@[j],
            decreases s.len() - k,
        {
            if self.text[self.pos + k] != s[k] {
                assert(self@.text.subrange(self@.pos, self@.pos + s@.len())[k as int] != s@[k as int]);
                return None;
            }
            k = k + 1;
        }
        assert(self@.text.subrange(self@.pos, self@.pos + s@.len()) =~= s@);
        let mut j: usize = 0;
        while j < s.len()
            invariant
                self.wf(),
                self@.text == old(self)@.text,
                s@.len() <= self@.text.len() - old(self)@.pos,
                j <= s@.len(),
                self@.pos == old(self)@.pos + j,
            decreases s.len() - j,
        {
            let _ = self.next();
            j = j + 1;
        }
        Some(())
    }

    /// Steps over whitespace; says whether there was any.
    pub fn whitespace(&mut self) -> (r: bool)
        requires
            old(self).wf(),
        ensures
            final(self).wf(),
            final(self)@.text == old(self)@.text,
            old(self)@.pos <= final(self)@.pos,
            r == (final(self)@.pos > old(self)@.pos),
            forall|j: int| old(self)@.pos <= j < final(self)@.pos ==> whitespace_char(#[trigger] final(self)@.text[j]),
            final(self)@.pos == final(self)@.text.len() || !whitespace_char(final(self)@.text[final(self)@.pos]),
            final(self)@.pos == skip_ws(old(self)@.text, old(self)@.pos),
    {
        let mut res = false;
        loop
            invariant
                self.wf(),
                self@.text == old(self)@.text,
                old(self)@.pos <= self@.pos,
                res == (self@.pos > old(self)@.pos),
                forall|j: int| old(self)@.pos <= j < self@.pos ==> whitespace_char(#[trigger] self@.text[j]),
            ensures
                self@.pos == self@.text.len() || !whitespace_char(self@.text[self@.pos]),
            decreases self@.text.len() - self@.pos,
        {
            let step = self.accept_with(is_whitespace);
            if step.is_none() {
                break;
            }
            res = true;
        }
        proof {
            lemma_span_end(self@.text, old(self)@.pos, self@.pos, |c: char| whitespace_char(c));
        }
        res
    }

    /// A decimal number that fits in a byte. `None`, with nothing read, when
    /// no digit comes next; `None` after the digits when their value is over 255.
    pub fn parse_num(&mut self) -> (r: Option<u8>)
        requires
            old(self).wf(),
        ensures
            final(self).wf(),
            final(self)@.text == old(self)@.text,
            old(self)@.pos <= final(self)@.pos,
            forall|j: int| old(self)@.pos <= j < final(self)@.pos ==> digit_char(#[trigger] final(self)@.text[j]),
            final(self)@.pos == final(self)@.text.len() || !digit_char(final(self)@.text[final(self)@.pos]),
            ({
                let d = final(self)@.text.subrange(old(self)@.pos, final(self)@.pos);
                r == if d.len() > 0 && decimal(d) <= 255 { Some(decimal(d) as u8) } else { None::<u8> }
            }),
            final(self)@.pos == digit_end(old(self)@.text, old(self)@.pos),
            r == number_at(old(self)@.text, old(self)@.pos),
    {
        let start = self.pos;
        let mut value: u32 = 0;
        let mut overflow = false;
        loop
            invariant
                self.wf(),
                self@.text == old(self)@.text,
                start == old(self)@.pos,
                start <= self@.pos,
                forall|j: int| start <= j < self@.pos ==> digit_char(#[trigger] self@.text[j]),
                overflow == (decimal(self@.text.subrange(start as int, self@.pos)) > 255),
                !overflow ==> value == decimal(self@.text.subrange(start as int, self@.pos)),
                value <= 255,
            ensures
                self@.pos == self@.text.len() || !digit_char(self@.text[self@.pos]),
            decreases self@.text.len() - self@.pos,
        {
            let ghost before = self@.pos;
            let step = self.accept_with(is_digit);
            match step {
                Some(c) => {
                    let digit = c as u32 - '0' as u32;
                    proof {
                        let d = self@.text.subrange(start as int, self@.pos);
                        assert(d.drop_last() =~= self@.text.subrange(start as int, before));
                        assert(d.last() == c);
                        assert(decimal(d) == decimal(d.drop_last()) * 10 + digit);
                        if overflow {
                            assert(decimal(d.drop_last()) * 10 >= 2560) by (nonlinear_arith)
                                requires decimal(d.drop_last()) > 255;
                        }
                    }
                    if !overflow {
                        let v = value * 10 + digit;
                        if v > 255 {
                            overflow = true;
                            value = 0;
                        } else {
                            value = v;
                        }
                    }
                },
                None => {
                    break;
                },
            }
        }
        proof {
            lemma_span_end(self@.text, old(self)@.pos, self@.pos, |c: char| digit_char(c));
        }
        if self.pos == start || overflow {
            None
        } else {
            Some(value as u8)
        }
    }

    /// A name: alphanumeric characters, the first not an ASCII digit. Reads the
    /// alphanumeric run either way.
    pub fn parse_ident(&mut self) -> (r: Option<Vec<char>>)
        requires
            old(self).wf(),
        ensures
            final(self).wf(),
            final(self)@.text == old(self)@.text,
            old(self)@.pos <= final(self)@.pos,
            forall|j: int| old(self)@.pos <= j < final(self)@.pos ==> alphanumeric_char(#[trigger] final(self)@.text[j]),
            final(self)@.pos == final(self)@.text.len() || !alphanumeric_char(final(self)@.text[final(self)@.pos]),
            ({
                let d = final(self)@.text.subrange(old(self)@.pos, final(self)@.pos);
                match r {
                    Some(name) => name@ == d && d.len() > 0 && !digit_char(d[0]),
                    None => d.len() == 0 || digit_char(d[0]),
                }
            }),
            final(self)@.pos == alnum_end(old(self)@.text, old(self)@.pos),
            (match r {
                Some(name) => Some(name@),
                None => None::<Seq<char>>,
            }) == ident_at(old(self)@.text, old(self)@.pos),
    {
        let mut res: Vec<char> = Vec::new();
        loop
            invariant
                self.wf(),
                self@.text == old(self)@.text,
                old(self)@.pos <= self@.pos,
                forall|j: int| old(self)@.pos <= j < self@.pos ==> alphanumeric_char(#[trigger] self@.text[j]),
                res@ == self@.text.subrange(old(self)@.pos, self@.pos),
            ensures
                self@.pos == self@.text.len() || !alphanumeric_char(self@.text[self@.pos]),
            decreases self@.text.len() - self@.pos,
        {
            let step = self.accept_with(is_alphanumeric);
            match step {
                Some(c) => {
                    res.push(c);
                    assert(res@ =~= self@.text.subrange(old(self)@.pos, self@.pos));
                },
                None => {
                    break;
                },
            }
        }
        proof {
            lemma_span_end(self@.text, old(self)@.pos, self@.pos, |c: char| alphanumeric_char(c));
            if res@.len() > 0 {
                assert(res@[0] == self@.text[old(self)@.pos]);
            }
        }
        if res.len() == 0 {
            return None;
        }
        if is_digit(res[0]) {
            return None;
        }
        Some(res)
    }
}

} // verus!
