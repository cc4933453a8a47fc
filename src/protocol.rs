//! The request line of the key/value protocol: `GET key`, `SET key value`
//! or `REMOVE key`, parsed from the characters of one request.
use vstd::prelude::*;

verus! {

/// White space as `char::is_whitespace` defines it (Unicode White_Space).
pub open spec fn is_space_char(c: char) -> bool {
    let u = c as u32;
    ||| u == 0x20
    ||| 0x09 <= u <= 0x0d
    ||| u == 0x85
    ||| u == 0xa0
    ||| u == 0x1680
    ||| 0x2000 <= u <= 0x200a
    ||| u == 0x2028
    ||| u == 0x2029
    ||| u == 0x202f
    ||| u == 0x205f
    ||| u == 0x3000
}

/// `s` without the white space at its start.
pub open spec fn trim_start(s: Seq<char>) -> Seq<char>
    decreases s.len(),
{
    if s.len() > 0 && is_space_char(s[0]) {
        trim_start(s.drop_first())
    } else {
        s
    }
}

/// `s` without the white space at its end.
pub open spec fn trim_end(s: Seq<char>) -> Seq<char>
    decreases s.len(),
{
    if s.len() > 0 && is_space_char(s.last()) {
        trim_end(s.drop_last())
    } else {
        s
    }
}

/// `s` without white space at either end, as `str::trim` leaves it.
pub open spec fn trim(s: Seq<char>) -> Seq<char> {
    trim_end(trim_start(s))
}

/// The index of the first `' '` in `s`, or `-1` where there is none.
pub open spec fn first_blank(s: Seq<char>) -> int
    decreases s.len(),
{
    if s.len() == 0 {
        -1
    } else if s[0] == ' ' {
        0
    } else {
        let r = first_blank(s.drop_first());
        if r < 0 {
            -1
        } else {
            r + 1
        }
    }
}

/// A request, as the protocol reads it.
pub enum Request {
    /// `GET key`
    Get { key: Vec<char> },
    /// `SET key value`
    Store { key: Vec<char>, value: Vec<char> },
    /// `REMOVE key`
    Remove { key: Vec<char> },
    /// A `SET` whose argument is not two words split by one blank.
    InvalidInput,
    /// A verb the protocol does not know.
    InvalidCommand,
    /// A line with no blank after the verb.
    MissingArgument,
}

/// A request with its words as character sequences.
pub enum RequestView {
    Get { key: Seq<char> },
    Store { key: Seq<char>, value: Seq<char> },
    Remove { key: Seq<char> },
    InvalidInput,
    InvalidCommand,
    MissingArgument,
}

impl View for Request {
    type V = RequestView;

    open spec fn view(&self) -> RequestView {
        match self {
            Request::Get { key } => RequestView::Get { key: key@ },
            Request::Store { key, value } => RequestView::Store { key: key@, value: value@ },
            Request::Remove { key } => RequestView::Remove { key: key@ },
            Request::InvalidInput => RequestView::InvalidInput,
            Request::InvalidCommand => RequestView::InvalidCommand,
            Request::MissingArgument => RequestView::MissingArgument,
        }
    }
}

/// What a request line means. The line is trimmed and cut at its first
/// blank into a verb and an argument; a `SET` argument must hold exactly one
/// blank, which parts the key from the value.
pub open spec fn request_of(line: Seq<char>) -> RequestView {
    let t = trim(line);
    let i = first_blank(t);
    if i < 0 {
        RequestView::MissingArgument
    } else {
        let verb = t.subrange(0, i);
        let arg = t.subrange(i + 1, t.len() as int);
        if verb == seq!['G', 'E', 'T'] {
            RequestView::Get { key: arg }
        } else if verb == seq!['R', 'E', 'M', 'O', 'V', 'E'] {
            RequestView::Remove { key: arg }
        } else if verb == seq!['S', 'E', 'T'] {
            let j = first_blank(arg);
            let value = arg.subrange(j + 1, arg.len() as int);
            if j >= 0 && first_blank(value) < 0 {
                RequestView::Store { key: arg.subrange(0, j), value }
            } else {
                RequestView::InvalidInput
            }
        } else {
            RequestView::InvalidCommand
        }
    }
}

/// Whether `c` is white space.
fn is_space(c: char) -> (r: bool)
    ensures
        r == is_space_char(c),
{
    let u = c as u32;
    u == 0x20 || (0x09 <= u && u <= 0x0d) || u == 0x85 || u == 0xa0 || u == 0x1680 || (0x2000
        <= u && u <= 0x200a) || u == 0x2028 || u == 0x2029 || u == 0x202f || u == 0x205f || u
        == 0x3000
}

/// Where the first `' '` of `s[from..to]` stands, counted from `from`, or
/// `-1` where there is none, as `first_blank` says of the subrange.
fn find_blank(s: &Vec<char>, from: usize, to: usize) -> (r: i64)
    requires
        from <= to <= s@.len(),
        s@.len() < i64::MAX,
    ensures
        r == first_blank(s@.subrange(from as int, to as int)),
        -1 <= r < to - from,
{
    let mut i = from;
    while i < to
        invariant
            from <= i <= to <= s@.len(),
            s@.len() < i64::MAX,
            forall|k: int| from <= k < i ==> s@[k] != ' ',
        decreases to - i,
    {
        if s[i] == ' ' {
            proof {
                lemma_first_blank_at(s@.subrange(from as int, to as int), i - from);
            }
            return (i - from) as i64;
        }
        i = i + 1;
    }
    proof {
        lemma_first_blank_none(s@.subrange(from as int, to as int));
    }
    -1
}

/// `first_blank` finds a blank that has none before it.
proof fn lemma_first_blank_at(s: Seq<char>, i: int)
    requires
        0 <= i < s.len(),
        s[i] == ' ',
        forall|k: int| 0 <= k < i ==> s[k] != ' ',
    ensures
        first_blank(s) == i,
    decreases i,
{
    if i > 0 {
        lemma_first_blank_at(s.drop_first(), i - 1);
    }
}

/// `first_blank` of a sequence with no blank.
proof fn lemma_first_blank_none(s: Seq<char>)
    requires
        forall|k: int| 0 <= k < s.len() ==> s[k] != ' ',
    ensures
        first_blank(s) == -1,
    decreases s.len(),
{
    if s.len() > 0 {
        lemma_first_blank_none(s.drop_first());
    }
}

/// `trim_start` of a subrange that starts with white space.
proof fn lemma_trim_start_step(s: Seq<char>, i: int)
    requires
        0 <= i < s.len(),
        is_space_char(s[i]),
    ensures
        trim_start(s.subrange(i, s.len() as int)) == trim_start(s.subrange(i + 1, s.len() as int)),
{
    assert(s.subrange(i, s.len() as int).drop_first() =~= s.subrange(i + 1, s.len() as int));
}

/// `trim_end` of a prefix that ends with white space.
proof fn lemma_trim_end_step(s: Seq<char>, j: int)
    requires
        0 < j <= s.len(),
        is_space_char(s[j - 1]),
    ensures
        trim_end(s.subrange(0, j)) == trim_end(s.subrange(0, j - 1)),
{
    assert(s.subrange(0, j).drop_last() =~= s.subrange(0, j - 1));
}

/// The characters `s[from..to]`.
fn copy_range(s: &Vec<char>, from: usize, to: usize) -> (r: Vec<char>)
    requires
        from <= to <= s@.len(),
    ensures
        r@ == s@.subrange(from as int, to as int),
{
    let mut r: Vec<char> = Vec::new();
    let mut i = from;
    while i < to
        invariant
            from <= i <= to <= s@.len(),
            r@ == s@.subrange(from as int, i as int),
        decreases to - i,
    {
        r.push(s[i]);
        i = i + 1;
        proof {
            assert(r@ =~= s@.subrange(from as int, i as int));
        }
    }
    r
}

/// Whether `s[from..to]` spells `word`.
fn spells(s: &Vec<char>, from: usize, to: usize, word: &Vec<char>) -> (r: bool)
    requires
        from <= to <= s@.len(),
    ensures
        r == (s@.subrange(from as int, to as int) == word@),
{
    if to - from != word.len() {
        proof {
            assert(s@.subrange(from as int, to as int).len() != word@.len());
        }
        return false;
    }
    let mut i: usize = 0;
    while i < word.len()
        invariant
            from <= to <= s@.len(),
            to - from == word@.len(),
            i <= word@.len(),
            forall|k: int| 0 <= k < i ==> s@[from + k] == word@[k],
        decreases word@.len() - i,
    {
        if s[from + i] != word[i] {
            proof {
                assert(s@.subrange(from as int, to as int)[i as int] != word@[i as int]);
            }
            return false;
        }
        i = i + 1;
    }
    proof {
        assert(s@.subrange(from as int, to as int) =~= word@);
    }
    true
}

/// Parses one request line.
pub fn parse_request(line: &Vec<char>) -> (r: Request)
    requires
        line@.len() < i64::MAX,
    ensures
        r@ == request_of(line@),
{
    let n = line.len();
    let mut start: usize = 0;
    proof {
        assert(line@.subrange(0, n as int) =~= line@);
    }
    while start < n && is_space(line[start])
        invariant
            start <= n == line@.len(),
            trim_start(line@) == trim_start(line@.subrange(start as int, n as int)),
        decreases n - start,
    {
        proof {
            lemma_trim_start_step(line@, start as int);
        }
        start = start + 1;
    }
    let ghost front = line@.subrange(start as int, n as int);
    proof {
        assert(trim_start(line@) == front);
    }
    let mut end: usize = n;
    while end > start && is_space(line[end - 1])
        invariant
            start <= end <= n == line@.len(),
            trim(line@) == trim_end(line@.subrange(start as int, end as int)),
        decreases end,
    {
        proof {
            let s = line@.subrange(start as int, n as int);
            lemma_trim_end_step(line@.subrange(start as int, end as int), (end - start) as int);
            assert(line@.subrange(start as int, end as int).subrange(0, (end - start) as int) =~= line@.subrange(start as int, end as int));
            assert(line@.subrange(start as int, end as int).subrange(0, (end - start - 1) as int) =~= line@.subrange(start as int, end - 1));
        }
        end = end - 1;
    }
    let ghost t = line@.subrange(start as int, end as int);
    proof {
        assert(trim(line@) == t);
    }
    let b = find_blank(line, start, end);
    if b < 0 {
        return Request::MissingArgument;
    }
    let verb_end = start + b as usize;
    let arg_start = verb_end + 1;
    proof {
        assert(t.subrange(0, b as int) =~= line@.subrange(start as int, verb_end as int));
        assert(t.subrange(b + 1, t.len() as int) =~= line@.subrange(arg_start as int, end as int));
    }
    if spells(line, start, verb_end, &vec!['G', 'E', 'T']) {
        Request::Get { key: copy_range(line, arg_start, end) }
    } else if spells(line, start, verb_end, &vec!['R', 'E', 'M', 'O', 'V', 'E']) {
        Request::Remove { key: copy_range(line, arg_start, end) }
    } else if spells(line, start, verb_end, &vec!['S', 'E', 'T']) {
        let c = find_blank(line, arg_start, end);
        if c < 0 {
            return Request::InvalidInput;
        }
        let key_end = arg_start + c as usize;
        let d = find_blank(line, key_end + 1, end);
        let ghost arg = line@.subrange(arg_start as int, end as int);
        proof {
            assert(arg.subrange(c + 1, arg.len() as int) =~= line@.subrange(key_end + 1, end as int));
            assert(arg.subrange(0, c as int) =~= line@.subrange(arg_start as int, key_end as int));
        }
        if d >= 0 {
            return Request::InvalidInput;
        }
        Request::Store { key: copy_range(line, arg_start, key_end), value: copy_range(line, key_end + 1, end) }
    } else {
        Request::InvalidCommand
    }
}

/// A reply line, as the protocol reads it.
pub enum Response {
    /// `Ok payload`: the payload is the JSON text of the result.
    Success { payload: Vec<char> },
    /// `Err message`
    Failure { message: Vec<char> },
    /// An empty reply.
    Empty,
    /// A reply whose first word is neither `Ok` nor `Err`.
    Unknown,
    /// A non-empty reply with no blank after its first word.
    MissingPayload,
}

/// A reply with its parts as character sequences.
pub enum ResponseView {
    Success { payload: Seq<char> },
    Failure { message: Seq<char> },
    Empty,
    Unknown,
    MissingPayload,
}

impl View for Response {
    type V = ResponseView;

    open spec fn view(&self) -> ResponseView {
        match self {
            Response::Success { payload } => ResponseView::Success { payload: payload@ },
            Response::Failure { message } => ResponseView::Failure { message: message@ },
            Response::Empty => ResponseView::Empty,
            Response::Unknown => ResponseView::Unknown,
            Response::MissingPayload => ResponseView::MissingPayload,
        }
    }
}

/// What a reply line means: it is cut at its first blank into a status
/// word and the rest, untrimmed.
pub open spec fn response_of(line: Seq<char>) -> ResponseView {
    if line.len() == 0 {
        ResponseView::Empty
    } else {
        let i = first_blank(line);
        if i < 0 {
            ResponseView::MissingPayload
        } else {
            let word = line.subrange(0, i);
            let rest = line.subrange(i + 1, line.len() as int);
            if word == seq!['O', 'k'] {
                ResponseView::Success { payload: rest }
            } else if word == seq!['E', 'r', 'r'] {
                ResponseView::Failure { message: rest }
            } else {
                ResponseView::Unknown
            }
        }
    }
}

/// Parses one reply line.
pub fn parse_response(line: &Vec<char>) -> (r: Response)
    requires
        line@.len() < i64::MAX,
    ensures
        r@ == response_of(line@),
{
    let n = line.len();
    if n == 0 {
        return Response::Empty;
    }
    proof {
        assert(line@.subrange(0, n as int) =~= line@);
    }
    let b = find_blank(line, 0, n);
    if b < 0 {
        return Response::MissingPayload;
    }
    let word_end = b as usize;
    if spells(line, 0, word_end, &vec!['O', 'k']) {
        Response::Success { payload: copy_range(line, word_end + 1, n) }
    } else if spells(line, 0, word_end, &vec!['E', 'r', 'r']) {
        Response::Failure { message: copy_range(line, word_end + 1, n) }
    } else {
        Response::Unknown
    }
}

} // verus!
