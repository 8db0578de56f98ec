//! The frame decoder: splits a buffer into CR LF terminated lines and reads
//! typed protocol values from them.
use crate::decimal::{i64_value, parse_i64};
use crate::text::utf8_string;
use vstd::prelude::*;
use vstd::slice::{slice_subrange, slice_to_vec};
use vstd::utf8::{decode_utf8, valid_utf8};

verus! {

/// The mathematical value of a decoded frame.
pub enum Value {
    Simple(Seq<char>),
    Error(Seq<char>),
    Integer(int),
    Bulk(int, Seq<char>),
    Array(int, Seq<Value>),
}

/// A decoded protocol value.
#[derive(Debug, PartialEq)]
pub enum DataType {
    SimpleString(String),
    Error(String),
    Integer(i64),
    BulkString(i64, String),
    Array(i64, Vec<DataType>),
}

impl DataType {
    pub open spec fn view(&self) -> Value
        decreases self,
    {
        match self {
            DataType::SimpleString(s) => Value::Simple(s@),
            DataType::Error(s) => Value::Error(s@),
            DataType::Integer(n) => Value::Integer(*n as int),
            DataType::BulkString(n, s) => Value::Bulk(*n as int, s@),
            DataType::Array(n, items) => Value::Array(
                *n as int,
                Seq::new(
                    items.len() as nat,
                    |k: int|
                        if 0 <= k < items.len() {
                            items[k].view()
                        } else {
                            Value::Integer(0)
                        },
                ),
            ),
        }
    }
}

/// The values of a sequence of decoded frames.
pub open spec fn values_of(items: Seq<DataType>) -> Seq<Value> {
    Seq::new(items.len(), |k: int| items[k]@)
}

/// Why a buffer could not be decoded.
#[derive(Debug, Clone, Copy, PartialEq, Eq, Structural)]
pub enum ParseError {
    /// A frame starts with a byte that is no known type tag, or is empty.
    UnsupportedType,
    /// An integer, length or count is not a signed 64-bit decimal.
    InvalidInteger,
    /// An array announces a negative number of elements.
    NegativeCount,
    /// The buffer ends before the frame does.
    Incomplete,
    /// A text payload is not valid UTF-8.
    InvalidText,
}

/// The segments of `b` from `start` on, between CR LF pairs, where the
/// scan for the next pair has reached `i`.
pub open spec fn split_from(b: Seq<u8>, start: int, i: int) -> Seq<Seq<u8>>
    decreases b.len() - i,
{
    if i + 1 >= b.len() {
        seq![b.subrange(start, b.len() as int)]
    } else if b[i] == 13 && b[i + 1] == 10 {
        seq![b.subrange(start, i)] + split_from(b, i + 2, i + 2)
    } else {
        split_from(b, start, i + 1)
    }
}

/// The segments of `b` between CR LF pairs; the last one is what follows
/// the last pair (empty when `b` ends with one).
pub open spec fn split_lines(b: Seq<u8>) -> Seq<Seq<u8>> {
    split_from(b, 0, 0)
}

/// The text that a payload spells.
pub open spec fn text_of(b: Seq<u8>) -> Result<Seq<char>, ParseError> {
    if valid_utf8(b) {
        Ok(decode_utf8(b))
    } else {
        Err(ParseError::InvalidText)
    }
}

/// The frame that starts at line `i` of `lines`, and the line after it.
/// The last line is the rest of the buffer after the last CR LF: no frame
/// starts there, though a bulk string takes it as its payload.
pub open spec fn frame_at(lines: Seq<Seq<u8>>, i: int) -> Result<(Value, int), ParseError>
    decreases lines.len() - i, 0int, 0nat,
{
    if i < 0 || i + 1 >= lines.len() {
        Err(ParseError::Incomplete)
    } else if lines[i].len() == 0 {
        Err(ParseError::UnsupportedType)
    } else {
        let tag = lines[i][0];
        let rest = lines[i].drop_first();
        if tag == 43 {
            match text_of(rest) {
                Ok(t) => Ok((Value::Simple(t), i + 1)),
                Err(e) => Err(e),
            }
        } else if tag == 45 {
            match text_of(rest) {
                Ok(t) => Ok((Value::Error(t), i + 1)),
                Err(e) => Err(e),
            }
        } else if tag == 58 {
            match i64_value(rest) {
                Some(n) => Ok((Value::Integer(n as int), i + 1)),
                None => Err(ParseError::InvalidInteger),
            }
        } else if tag == 36 {
            match i64_value(rest) {
                None => Err(ParseError::InvalidInteger),
                Some(n) => match text_of(lines[i + 1]) {
                    Ok(t) => Ok((Value::Bulk(n as int, t), i + 2)),
                    Err(e) => Err(e),
                },
            }
        } else if tag == 42 {
            match i64_value(rest) {
                None => Err(ParseError::InvalidInteger),
                Some(n) => if n < 0 {
                    Err(ParseError::NegativeCount)
                } else {
                    match frames_at(lines, i + 1, n as nat) {
                        Ok((items, j)) => Ok((Value::Array(n as int, items), j)),
                        Err(e) => Err(e),
                    }
                },
            }
        } else {
            Err(ParseError::UnsupportedType)
        }
    }
}

/// The `n` frames that follow one another from line `i` on, and the line
/// after the last of them.
pub open spec fn frames_at(lines: Seq<Seq<u8>>, i: int, n: nat) -> Result<
    (Seq<Value>, int),
    ParseError,
>
    decreases lines.len() - i, 1int, n,
{
    if n == 0 {
        Ok((seq![], i))
    } else {
        // A frame ends past the line it starts on and at most one past the
        // last line; the guard below never fires and bounds the recursion.
        match frame_at(lines, i) {
            Err(e) => Err(e),
            Ok((v, j)) => if j <= i || j > lines.len() {
                Err(ParseError::Incomplete)
            } else {
                match frames_at(lines, j, (n - 1) as nat) {
                    Ok((vs, k)) => Ok((seq![v] + vs, k)),
                    Err(e) => Err(e),
                }
            },
        }
    }
}

/// The frames that follow one another from line `i` on, up to the last
/// line.
pub open spec fn frames_from(lines: Seq<Seq<u8>>, i: int) -> Result<Seq<Value>, ParseError>
    decreases lines.len() - i,
{
    if i < 0 || i + 1 >= lines.len() {
        Ok(seq![])
    } else {
        // A frame ends past the line it starts on and at most one past the
        // last line; the guard below never fires and bounds the recursion.
        match frame_at(lines, i) {
            Err(e) => Err(e),
            Ok((v, j)) => if j <= i || j > lines.len() {
                Err(ParseError::Incomplete)
            } else {
                match frames_from(lines, j) {
                    Ok(vs) => Ok(seq![v] + vs),
                    Err(e) => Err(e),
                }
            },
        }
    }
}

/// The line where the run of frames from line `i` on stops.
pub open spec fn frames_end(lines: Seq<Seq<u8>>, i: int) -> int
    decreases lines.len() - i,
{
    if i < 0 || i + 1 >= lines.len() {
        i
    } else {
        match frame_at(lines, i) {
            Err(_) => i,
            Ok((_, j)) => if j <= i || j > lines.len() {
                i
            } else {
                frames_end(lines, j)
            },
        }
    }
}

/// What decoding the buffer `b` gives: every complete frame in it, in
/// order, once the buffer is known to be UTF-8 text.
pub open spec fn decode(b: Seq<u8>) -> Result<Seq<Value>, ParseError> {
    if valid_utf8(b) {
        frames_from(split_lines(b), 0)
    } else {
        Err(ParseError::InvalidText)
    }
}

/// `r` is the frame `s`, with the same line after it.
pub open spec fn frame_matches(
    r: Result<(DataType, usize), ParseError>,
    s: Result<(Value, int), ParseError>,
) -> bool {
    match s {
        Ok((v, j)) => r matches Ok((d, k)) && d@ == v && k == j,
        Err(e) => r == Err::<(DataType, usize), ParseError>(e),
    }
}

/// `acc` followed by the frames of `r`.
pub open spec fn prefixed(
    acc: Seq<Value>,
    r: Result<(Seq<Value>, int), ParseError>,
) -> Result<(Seq<Value>, int), ParseError> {
    match r {
        Ok((vs, j)) => Ok((acc + vs, j)),
        Err(e) => Err(e),
    }
}

/// `acc` followed by the frames of `r`.
pub open spec fn prefixed_all(
    acc: Seq<Value>,
    r: Result<Seq<Value>, ParseError>,
) -> Result<Seq<Value>, ParseError> {
    match r {
        Ok(vs) => Ok(acc + vs),
        Err(e) => Err(e),
    }
}

/// A decoder over the lines of one buffer, with a cursor into them.
pub struct RespParser {
    pub index: usize,
    pub commands: Vec<Vec<u8>>,
}

impl RespParser {
    pub open spec fn lines(&self) -> Seq<Seq<u8>> {
        Seq::new(self.commands.len() as nat, |k: int| self.commands[k]@)
    }

    /// Checks that `slice` is UTF-8 text and splits it into its lines, with
    /// the cursor on the first.
    pub fn new(slice: &[u8]) -> (r: Result<Self, ParseError>)
        ensures
            !valid_utf8(slice@) ==> r == Err::<Self, ParseError>(ParseError::InvalidText),
            valid_utf8(slice@) ==> (r matches Ok(p) && p.index == 0 && p.lines() == split_lines(
                slice@,
            )),
    {
        if utf8_string(slice).is_none() {
            return Err(ParseError::InvalidText);
        }
        let ghost b = slice@;
        let mut commands: Vec<Vec<u8>> = Vec::new();
        let mut start: usize = 0;
        let mut i: usize = 0;
        while slice.len() >= 2 && i < slice.len() - 1
            invariant
                b == slice@,
                start <= i <= slice@.len(),
                Seq::new(commands@.len(), |k: int| commands@[k]@) + split_from(b, start as int, i as int)
                    == split_lines(b),
            decreases slice@.len() - i,
        {
            let ghost before = Seq::new(commands@.len(), |k: int| commands@[k]@);
            if slice[i] == 13 && slice[i + 1] == 10 {
                let line = slice_to_vec(slice_subrange(slice, start, i));
                commands.push(line);
                proof {
                    let after = Seq::new(commands@.len(), |k: int| commands@[k]@);
                    assert(after =~= before.push(b.subrange(start as int, i as int)));
                    assert(after + split_from(b, (i + 2) as int, (i + 2) as int) =~= before + (
                    seq![b.subrange(start as int, i as int)] + split_from(
                        b,
                        (i + 2) as int,
                        (i + 2) as int,
                    )));
                }
                i = i + 2;
                start = i;
            } else {
                i = i + 1;
            }
        }
        let ghost before = Seq::new(commands@.len(), |k: int| commands@[k]@);
        let line = slice_to_vec(slice_subrange(slice, start, slice.len()));
        commands.push(line);
        proof {
            let after = Seq::new(commands@.len(), |k: int| commands@[k]@);
            assert(after =~= before + split_from(b, start as int, i as int));
        }
        Ok(RespParser { index: 0, commands })
    }

    /// Decodes every complete frame from the cursor on, and moves the
    /// cursor past them: onto the last line, or past it when a bulk string
    /// took that line as its payload.
    pub fn parse(&mut self) -> (r: Result<Vec<DataType>, ParseError>)
        ensures
            final(self).commands == old(self).commands,
            match frames_from(old(self).lines(), old(self).index as int) {
                Ok(vs) => r matches Ok(items) && values_of(items@) == vs && final(self).index
                    == frames_end(old(self).lines(), old(self).index as int),
                Err(e) => r == Err::<Vec<DataType>, ParseError>(e),
            },
    {
        match self.m_parse(self.index, None) {
            Ok((items, j)) => {
                self.index = j;
                Ok(items)
            },
            Err(e) => Err(e),
        }
    }

    /// Decodes `count` frames from line `index` on, or, with no count,
    /// every frame up to the last line.
    fn m_parse(&self, index: usize, count: Option<i64>) -> (r: Result<
        (Vec<DataType>, usize),
        ParseError,
    >)
        requires
            count matches Some(n) ==> n >= 0 && index < self.lines().len(),
        ensures
            count is None ==> match frames_from(self.lines(), index as int) {
                Ok(vs) => r matches Ok((items, k)) && values_of(items@) == vs && k == frames_end(
                    self.lines(),
                    index as int,
                ),
                Err(e) => r == Err::<(Vec<DataType>, usize), ParseError>(e),
            },
            count matches Some(n) ==> match frames_at(self.lines(), index as int, n as nat) {
                Ok((vs, j)) => r matches Ok((items, k)) && values_of(items@) == vs && k == j,
                Err(e) => r == Err::<(Vec<DataType>, usize), ParseError>(e),
            },
            count is Some ==> (r matches Ok((_, k)) ==> index <= k <= self.lines().len()),
        decreases self.commands@.len() - index, 1int, 0int,
    {
        let ghost lines = self.lines();
        let len = self.commands.len();
        let mut items: Vec<DataType> = Vec::new();
        let mut idx: usize = index;
        match count {
            None => {
                proof {
                    assert(values_of(items@) =~= seq![]);
                    if let Ok(vs) = frames_from(lines, index as int) {
                        assert(values_of(items@) + vs =~= vs);
                    }
                }
                while len >= 2 && idx < len - 1
                    invariant
                        count is None,
                        lines == self.lines(),
                        len == lines.len(),
                        index <= idx,
                        frames_end(lines, index as int) == frames_end(lines, idx as int),
                        frames_from(lines, index as int) == prefixed_all(
                            values_of(items@),
                            frames_from(lines, idx as int),
                        ),
                    decreases len - idx,
                {
                    match self.parse_frame(idx) {
                        Ok((d, j)) => {
                            let ghost acc = values_of(items@);
                            items.push(d);
                            proof {
                                assert(values_of(items@) =~= acc.push(d@));
                                if let Ok(vs) = frames_from(lines, j as int) {
                                    assert(acc + (seq![d@] + vs) =~= acc.push(d@) + vs);
                                }
                            }
                            idx = j;
                        },
                        Err(e) => {
                            return Err(e);
                        },
                    }
                }
                assert(values_of(items@) + seq![] =~= values_of(items@));
                Ok((items, idx))
            },
            Some(n) => {
                let mut k: i64 = 0;
                proof {
                    assert(values_of(items@) =~= seq![]);
                    if let Ok((vs, j)) = frames_at(lines, index as int, n as nat) {
                        assert(values_of(items@) + vs =~= vs);
                    }
                }
                while k < n
                    invariant
                        count == Some(n),
                        lines == self.lines(),
                        len == lines.len(),
                        0 <= k <= n,
                        index <= idx <= len,
                        frames_at(lines, index as int, n as nat) == prefixed(
                            values_of(items@),
                            frames_at(lines, idx as int, (n - k) as nat),
                        ),
                    decreases n - k,
                {
                    if len - idx <= 1 {
                        assert(frame_at(lines, idx as int) == Err::<(Value, int), ParseError>(
                            ParseError::Incomplete,
                        ));
                        assert(frames_at(lines, idx as int, (n - k) as nat) == Err::<
                            (Seq<Value>, int),
                            ParseError,
                        >(ParseError::Incomplete));
                        return Err(ParseError::Incomplete);
                    }
                    match self.parse_frame(idx) {
                        Ok((d, j)) => {
                            let ghost acc = values_of(items@);
                            items.push(d);
                            proof {
                                assert(values_of(items@) =~= acc.push(d@));
                                if let Ok((vs, e)) = frames_at(lines, j as int, (n - k - 1) as nat) {
                                    assert(acc + (seq![d@] + vs) =~= acc.push(d@) + vs);
                                }
                            }
                            idx = j;
                            k = k + 1;
                        },
                        Err(e) => {
                            return Err(e);
                        },
                    }
                }
                assert(values_of(items@) + seq![] =~= values_of(items@));
                Ok((items, idx))
            },
        }
    }

    /// Decodes the frame that starts at line `index`.
    fn parse_frame(&self, index: usize) -> (r: Result<(DataType, usize), ParseError>)
        requires
            index + 1 < self.lines().len(),
        ensures
            frame_matches(r, frame_at(self.lines(), index as int)),
            r matches Ok((_, j)) ==> index < j <= self.lines().len(),
        decreases self.commands@.len() - index, 0int, 2int,
    {
        let line = &self.commands[index];
        if line.len() == 0 {
            return Err(ParseError::UnsupportedType);
        }
        let tag = line[0];
        if tag == 43 {
            self.parse_simple_string(index)
        } else if tag == 45 {
            self.parse_error(index)
        } else if tag == 58 {
            self.parse_integer(index)
        } else if tag == 36 {
            self.parse_bulk_string(index)
        } else if tag == 42 {
            self.parse_array(index)
        } else {
            Err(ParseError::UnsupportedType)
        }
    }

    /// The bytes of line `index` after its type tag.
    fn payload(&self, index: usize) -> (r: &[u8])
        requires
            index < self.lines().len(),
            self.lines()[index as int].len() > 0,
        ensures
            r@ == self.lines()[index as int].drop_first(),
    {
        let line = &self.commands[index];
        let r = slice_subrange(line.as_slice(), 1, line.len());
        assert(r@ =~= self.lines()[index as int].drop_first());
        r
    }

    fn parse_simple_string(&self, index: usize) -> (r: Result<(DataType, usize), ParseError>)
        requires
            index + 1 < self.lines().len(),
            self.lines()[index as int].len() > 0,
            self.lines()[index as int][0] == 43,
        ensures
            frame_matches(r, frame_at(self.lines(), index as int)),
            r matches Ok((_, j)) ==> j == index + 1,
    {
        match utf8_string(self.payload(index)) {
            Some(s) => Ok((DataType::SimpleString(s), index + 1)),
            None => Err(ParseError::InvalidText),
        }
    }

    fn parse_error(&self, index: usize) -> (r: Result<(DataType, usize), ParseError>)
        requires
            index + 1 < self.lines().len(),
            self.lines()[index as int].len() > 0,
            self.lines()[index as int][0] == 45,
        ensures
            frame_matches(r, frame_at(self.lines(), index as int)),
            r matches Ok((_, j)) ==> j == index + 1,
    {
        match utf8_string(self.payload(index)) {
            Some(s) => Ok((DataType::Error(s), index + 1)),
            None => Err(ParseError::InvalidText),
        }
    }

    fn parse_integer(&self, index: usize) -> (r: Result<(DataType, usize), ParseError>)
        requires
            index + 1 < self.lines().len(),
            self.lines()[index as int].len() > 0,
            self.lines()[index as int][0] == 58,
        ensures
            frame_matches(r, frame_at(self.lines(), index as int)),
            r matches Ok((_, j)) ==> j == index + 1,
    {
        match parse_i64(self.payload(index)) {
            Some(n) => Ok((DataType::Integer(n), index + 1)),
            None => Err(ParseError::InvalidInteger),
        }
    }

    fn parse_bulk_string(&self, index: usize) -> (r: Result<(DataType, usize), ParseError>)
        requires
            index + 1 < self.lines().len(),
            self.lines()[index as int].len() > 0,
            self.lines()[index as int][0] == 36,
        ensures
            frame_matches(r, frame_at(self.lines(), index as int)),
            r matches Ok((_, j)) ==> j == index + 2,
    {
        let count = match parse_i64(self.payload(index)) {
            Some(n) => n,
            None => {
                return Err(ParseError::InvalidInteger);
            },
        };
        match utf8_string(self.commands[index + 1].as_slice()) {
            Some(s) => Ok((DataType::BulkString(count, s), index + 2)),
            None => Err(ParseError::InvalidText),
        }
    }

    fn parse_array(&self, index: usize) -> (r: Result<(DataType, usize), ParseError>)
        requires
            index + 1 < self.lines().len(),
            self.lines()[index as int].len() > 0,
            self.lines()[index as int][0] == 42,
        ensures
            frame_matches(r, frame_at(self.lines(), index as int)),
            r matches Ok((_, j)) ==> index < j <= self.lines().len(),
        decreases self.commands@.len() - index, 0int, 1int,
    {
        let count = match parse_i64(self.payload(index)) {
            Some(n) => n,
            None => {
                return Err(ParseError::InvalidInteger);
            },
        };
        if count < 0 {
            return Err(ParseError::NegativeCount);
        }
        match self.m_parse(index + 1, Some(count)) {
            Ok((items, j)) => {
                let r = DataType::Array(count, items);
                proof {
                    let vs = match r@ {
                        Value::Array(_, vs) => vs,
                        _ => seq![],
                    };
                    assert(vs =~= values_of(items@));
                }
                Ok((r, j))
            },
            Err(e) => Err(e),
        }
    }
}

} // verus!
