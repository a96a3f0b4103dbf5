//! Line-level helpers of the instance reader: reading numbers and the
//! tracker that hands out the non-empty, non-comment lines of a text.
use crate::error::InputError;
use crate::instance::RealLiteral;
use crate::numbers::{
    float_check, lemma_parse_usize_decimal, parse_usize, spec_float_check, spec_parse_usize,
    FloatErrorKind, IntErrorKind,
};
use crate::text::{
    chars_of, decimal, find_char, find_char_bounds, split_once, split_once_str, trim, trim_str, views,
};
use vstd::prelude::*;

verus! {

broadcast use vstd::string::group_string_axioms;

/// How `ParseIntError` describes each kind.
pub open spec fn int_error_text(k: IntErrorKind) -> Seq<char> {
    match k {
        IntErrorKind::Empty => "cannot parse integer from empty string"@,
        IntErrorKind::InvalidDigit => "invalid digit found in string"@,
        IntErrorKind::PosOverflow => "number too large to fit in target type"@,
    }
}

/// How `ParseFloatError` describes each kind.
pub open spec fn float_error_text(k: FloatErrorKind) -> Seq<char> {
    match k {
        FloatErrorKind::Empty => "cannot parse float from empty string"@,
        FloatErrorKind::Invalid => "invalid float literal"@,
    }
}

pub open spec fn msg_invalid_integer(k: IntErrorKind, value: Seq<char>) -> Seq<char> {
    "Invalid integer: "@ + int_error_text(k) + " '"@ + value + "'"@
}

pub open spec fn msg_invalid_float(k: FloatErrorKind, value: Seq<char>) -> Seq<char> {
    "Invalid float: "@ + float_error_text(k) + " '"@ + value + "'"@
}

/// `parse_integer` on a text.
pub open spec fn spec_parse_integer(value: Seq<char>) -> Result<usize, Seq<char>> {
    match spec_parse_usize(value) {
        Ok(v) => Ok(v as usize),
        Err(k) => Err(msg_invalid_integer(k, value)),
    }
}

/// `parse_float` on a text: the text itself when it is a literal.
pub open spec fn spec_parse_float(value: Seq<char>) -> Result<Seq<char>, Seq<char>> {
    match spec_float_check(value) {
        Ok(()) => Ok(value),
        Err(k) => Err(msg_invalid_float(k, value)),
    }
}

/// `get_split_line_parts` on a line.
pub open spec fn spec_split_line_parts(line: Seq<char>) -> Seq<Seq<char>> {
    split_once(trim(line), ':')
}

pub open spec fn spec_is_empty_or_comment(line: Seq<char>) -> bool {
    let t = trim(line);
    t.len() == 0 || t[0] == '#'
}

/// The text that `format!("{:?}", ..)` gives for a list of strings.
pub uninterp spec fn debug_list_text(parts: Seq<Seq<char>>) -> Seq<char>;

/// Renders a list of strings with `format!("{:?}", ..)`, std's `Debug` for
/// a vector of `&str`. The contract only names the result after the texts of
/// the list; how the brackets, quotes and escapes are written is left to std
/// and not stated.
#[verifier::external_body]
pub(crate) fn debug_list(parts: &Vec<&str>) -> (r: String)
    ensures
        r@ == debug_list_text(views(parts@)),
{
    format!("{:?}", parts)
}

/// Appends one character with `String::push`; the contract claims that the
/// text grows by exactly that character.
#[verifier::external_body]
pub(crate) fn push_char(s: &mut String, c: char)
    ensures
        final(s)@ == old(s)@.push(c),
{
    s.push(c)
}

fn int_error_str(k: IntErrorKind) -> (s: &'static str)
    ensures
        s@ == int_error_text(k),
{
    match k {
        IntErrorKind::Empty => "cannot parse integer from empty string",
        IntErrorKind::InvalidDigit => "invalid digit found in string",
        IntErrorKind::PosOverflow => "number too large to fit in target type",
    }
}

fn float_error_str(k: FloatErrorKind) -> (s: &'static str)
    ensures
        s@ == float_error_text(k),
{
    match k {
        FloatErrorKind::Empty => "cannot parse float from empty string",
        FloatErrorKind::Invalid => "invalid float literal",
    }
}

/// The line trimmed and cut at its first `:` into at most two pieces.
pub fn get_split_line_parts(line: &str) -> (parts: Vec<&str>)
    ensures
        views(parts@) == spec_split_line_parts(line@),
{
    split_once_str(trim_str(line), ':')
}

/// Reads an unsigned integer.
pub fn parse_integer(value: &str) -> (r: Result<usize, InputError>)
    ensures
        crate::error::outcome(r) == spec_parse_integer(value@),
{
    match parse_usize(value) {
        Ok(v) => Ok(v),
        Err(k) => {
            let mut m = String::from_str("Invalid integer: ");
            m.append(int_error_str(k));
            m.append(" '");
            m.append(value);
            m.append("'");
            assert(m@ =~= msg_invalid_integer(k, value@));
            Err(InputError::new(m))
        },
    }
}

/// Reads a real number, keeping its literal.
pub fn parse_float(value: &str) -> (r: Result<RealLiteral, InputError>)
    ensures
        match r {
            Ok(lit) => spec_parse_float(value@) == Ok::<Seq<char>, Seq<char>>(lit@),
            Err(e) => spec_parse_float(value@) == Err::<Seq<char>, Seq<char>>(e.message@),
        },
{
    match float_check(value) {
        Ok(()) => Ok(RealLiteral::from_text(String::from_str(value))),
        Err(k) => {
            let mut m = String::from_str("Invalid float: ");
            m.append(float_error_str(k));
            m.append(" '");
            m.append(value);
            m.append("'");
            assert(m@ =~= msg_invalid_float(k, value@));
            Err(InputError::new(m))
        },
    }
}

/// Whether the line is blank or a `#` comment.
pub fn is_empty_or_comment(line: &str) -> (r: bool)
    ensures
        r == spec_is_empty_or_comment(line@),
{
    let trimmed = trim_str(line);
    let cs = chars_of(trimmed);
    cs.len() == 0 || cs[0] == '#'
}

/// Reading back the decimal text of any `usize` gives that number:
/// `parse_integer(&n.to_string())` is `Ok(n)`.
pub proof fn lemma_parse_integer_decimal(n: usize)
    ensures
        spec_parse_integer(decimal(n as nat)) == Ok::<usize, Seq<char>>(n),
{
    lemma_parse_usize_decimal(n);
}

/// Length of the first line of `s`, its `\n` included.
pub open spec fn line_len(s: Seq<char>) -> int {
    let p = find_char(s, '\n');
    if p < 0 {
        s.len() as int
    } else {
        p + 1
    }
}

pub proof fn lemma_line_len(s: Seq<char>)
    ensures
        s.len() > 0 ==> 1 <= line_len(s) <= s.len(),
        s.len() == 0 ==> line_len(s) == 0,
{
    find_char_bounds(s, '\n');
}

/// The next line of `s` that is neither blank nor a comment (empty at the
/// end of the text), what follows it, and how many lines were read.
pub open spec fn next_valid_line(s: Seq<char>) -> (Seq<char>, Seq<char>, nat)
    decreases s.len(),
{
    if s.len() == 0 {
        (seq![], s, 0)
    } else {
        let k = line_len(s);
        let line = s.subrange(0, k);
        let rest = s.subrange(k, s.len() as int);
        if !spec_is_empty_or_comment(line) {
            (line, rest, 1)
        } else {
            proof {
                lemma_line_len(s);
            }
            let r = next_valid_line(rest);
            (r.0, r.1, r.2 + 1)
        }
    }
}

/// What follows the next valid line is a suffix of the text.
pub proof fn lemma_next_valid_line(s: Seq<char>)
    ensures
        next_valid_line(s).1.len() <= s.len(),
        s.len() > 0 ==> next_valid_line(s).1.len() < s.len(),
        next_valid_line(s).1 == s.subrange(s.len() - next_valid_line(s).1.len(), s.len() as int),
        next_valid_line(s).2 <= s.len(),
        next_valid_line(s).0.len() == 0 ==> next_valid_line(s).1.len() == 0,
    decreases s.len(),
{
    if s.len() > 0 {
        lemma_line_len(s);
        let k = line_len(s);
        let line = s.subrange(0, k);
        let rest = s.subrange(k, s.len() as int);
        if spec_is_empty_or_comment(line) {
            lemma_next_valid_line(rest);
            let r = next_valid_line(rest);
            assert(r.1 =~= s.subrange(s.len() - r.1.len(), s.len() as int));
        } else {
            assert(rest =~= s.subrange(s.len() - rest.len(), s.len() as int));
            assert(line.len() > 0);
        }
    } else {
        assert(s =~= s.subrange(0, 0));
    }
}

/// The line handed out is the end of the text or a line that is neither
/// blank nor a comment.
pub proof fn lemma_valid_line_kept(s: Seq<char>)
    ensures
        next_valid_line(s).0.len() == 0 || !spec_is_empty_or_comment(next_valid_line(s).0),
    decreases s.len(),
{
    if s.len() > 0 {
        lemma_line_len(s);
        let k = line_len(s);
        let rest = s.subrange(k, s.len() as int);
        if spec_is_empty_or_comment(s.subrange(0, k)) {
            lemma_valid_line_kept(rest);
        }
    }
}

/// The `k`-th valid line of `s` (from 0) and what follows it.
pub open spec fn nth_valid_line(s: Seq<char>, k: nat) -> (Seq<char>, Seq<char>)
    decreases k,
{
    if k == 0 {
        (next_valid_line(s).0, next_valid_line(s).1)
    } else {
        nth_valid_line(next_valid_line(s).1, (k - 1) as nat)
    }
}

/// What follows the first `k` valid lines of `s`.
pub open spec fn rest_after(s: Seq<char>, k: nat) -> Seq<char>
    decreases k,
{
    if k == 0 {
        s
    } else {
        rest_after(next_valid_line(s).1, (k - 1) as nat)
    }
}

pub proof fn lemma_rest_after_step(s: Seq<char>, k: nat)
    ensures
        rest_after(s, k + 1) == next_valid_line(rest_after(s, k)).1,
        nth_valid_line(s, k) == (next_valid_line(rest_after(s, k)).0, next_valid_line(rest_after(s, k)).1),
    decreases k,
{
    if k > 0 {
        lemma_rest_after_step(next_valid_line(s).1, (k - 1) as nat);
    } else {
        assert(rest_after(s, 1) == rest_after(next_valid_line(s).1, 0));
    }
}

/// Reads a text line by line, skipping blank and comment lines, and counts
/// the lines it has read.
pub struct LineTracker {
    chars: Vec<char>,
    pos: usize,
    current_line: usize,
}

impl LineTracker {
    /// The text that has not been read yet.
    pub closed spec fn rest(&self) -> Seq<char> {
        self.chars@.subrange(self.pos as int, self.chars@.len() as int)
    }

    /// The number of lines read so far.
    pub closed spec fn lines_read(&self) -> nat {
        self.current_line as nat
    }

    pub closed spec fn wf(&self) -> bool {
        &&& self.pos <= self.chars@.len()
        &&& self.current_line <= self.pos
    }

    pub fn new(input: &str) -> (t: Self)
        ensures
            t.wf(),
            t.rest() == input@,
            t.lines_read() == 0,
    {
        let chars = chars_of(input);
        let t = LineTracker { chars, pos: 0, current_line: 0 };
        assert(t.rest() =~= input@);
        t
    }

    pub fn current_line(&self) -> (r: usize)
        ensures
            r == self.lines_read(),
    {
        self.current_line
    }

    /// Position just after the line that starts at `self.pos`.
    fn line_end(&self) -> (e: usize)
        requires
            self.wf(),
        ensures
            e == self.pos + line_len(self.rest()),
            e <= self.chars@.len(),
    {
        let n = self.chars.len();
        let mut i = self.pos;
        let ghost s = self.rest();
        proof {
            find_char_bounds(s, '\n');
        }
        while i < n
            invariant
                self.pos <= i <= n,
                n == self.chars@.len(),
                s == self.chars@.subrange(self.pos as int, n as int),
                forall|j: int| self.pos <= j < i ==> self.chars@[j] != '\n',
                -1 <= find_char(s, '\n') < s.len(),
                find_char(s, '\n') >= 0 ==> s[find_char(s, '\n')] == '\n',
                forall|j: int| 0 <= j < find_char(s, '\n') ==> s[j] != '\n',
                find_char(s, '\n') < 0 ==> forall|j: int| 0 <= j < s.len() ==> s[j] != '\n',
            decreases n - i,
        {
            if self.chars[i] == '\n' {
                proof {
                    let p = find_char(s, '\n');
                    assert(s[i - self.pos] == '\n');
                    if p < 0 {
                        assert(false);
                    }
                    if p < i - self.pos {
                        assert(self.chars@[p + self.pos] == s[p]);
                    }
                    assert(p == i - self.pos);
                }
                return i + 1;
            }
            i = i + 1;
        }
        proof {
            let p = find_char(s, '\n');
            if p >= 0 {
                assert(self.chars@[p + self.pos] == s[p]);
            }
        }
        n
    }

    /// The next line that is neither blank nor a comment, with its line
    /// break; the empty string at the end of the text.
    pub fn read_next_valid_line(&mut self) -> (line: String)
        requires
            old(self).wf(),
        ensures
            final(self).wf(),
            line@ == next_valid_line(old(self).rest()).0,
            final(self).rest() == next_valid_line(old(self).rest()).1,
            final(self).lines_read() == old(self).lines_read() + next_valid_line(old(self).rest()).2,
            line@.len() == 0 || !spec_is_empty_or_comment(line@),
    {
        proof {
            lemma_valid_line_kept(self.rest());
        }
        let ghost s0 = self.rest();
        let ghost lines0 = self.current_line as nat;
        loop
            invariant
                self.wf(),
                s0 == old(self).rest(),
                lines0 == old(self).lines_read(),
                next_valid_line(s0).0 == next_valid_line(self.rest()).0,
                next_valid_line(s0).1 == next_valid_line(self.rest()).1,
                next_valid_line(s0).2 + lines0 == next_valid_line(self.rest()).2 + self.current_line,
            decreases self.chars@.len() - self.pos,
        {
            let n = self.chars.len();
            if self.pos == n {
                assert(self.rest().len() == 0);
                assert(next_valid_line(self.rest()).0 =~= seq![]);
                let empty = String::new();
                assert(empty@ =~= seq![]);
                return empty;
            }
            let ghost s = self.rest();
            let e = self.line_end();
            proof {
                lemma_line_len(s);
            }
            let mut line = String::new();
            let mut i = self.pos;
            while i < e
                invariant
                    self.pos <= i <= e,
                    e <= self.chars@.len(),
                    line@ == self.chars@.subrange(self.pos as int, i as int),
                decreases e - i,
            {
                push_char(&mut line, self.chars[i]);
                assert(line@ =~= self.chars@.subrange(self.pos as int, i + 1));
                i = i + 1;
            }
            let ghost k = line_len(s);
            assert(line@ =~= s.subrange(0, k));
            assert(self.chars@.subrange(e as int, n as int) =~= s.subrange(k, s.len() as int));
            proof {
                let rest = s.subrange(k, s.len() as int);
                if spec_is_empty_or_comment(s.subrange(0, k)) {
                    assert(next_valid_line(s) == (next_valid_line(rest).0, next_valid_line(rest).1, next_valid_line(rest).2 + 1));
                } else {
                    assert(next_valid_line(s) == (s.subrange(0, k), rest, 1nat));
                }
            }
            self.pos = e;
            self.current_line = self.current_line + 1;
            if !is_empty_or_comment(line.as_str()) {
                return line;
            }
        }
    }
}

} // verus!
