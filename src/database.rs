//! The line-oriented request grammar of the server (`GET <key>`,
//! `SET <key> <value>`), its responses, and the string table it works on.
use vstd::prelude::*;

verus! {

/// The characters of `s`, in order.
fn chars_of(s: &str) -> (r: Vec<char>)
    ensures
        r@ == s@,
{
    let mut out: Vec<char> = Vec::new();
    for c in it: s.chars()
        invariant
            it.seq() == s@,
            out@ == it.seq().take(it.index() as int),
    {
        out.push(c);
    }
    out
}

/// `s` holds no space.
pub open spec fn space_free(s: Seq<char>) -> bool {
    forall|i: int| 0 <= i < s.len() ==> s[i] != ' '
}

/// `i` is the position of the first space of `s`.
pub open spec fn is_first_space(s: Seq<char>, i: int) -> bool {
    0 <= i < s.len() && s[i] == ' ' && space_free(s.subrange(0, i))
}

/// `s` cut at its first space: the part before it and the part after it, or
/// `None` when `s` holds no space.
pub open spec fn split_at_space(s: Seq<char>) -> Option<(Seq<char>, Seq<char>)> {
    if space_free(s) {
        None
    } else {
        let i = choose|i: int| is_first_space(s, i);
        Some((s.subrange(0, i), s.subrange(i + 1, s.len() as int)))
    }
}

/// A request as mathematical values.
pub ghost enum RequestView {
    Get { key: Seq<char> },
    Put { key: Seq<char>, value: Seq<char> },
}

/// A request read from one line of input.
pub enum Request {
    /// `GET <key>`: read the value stored under a key.
    Get { key: String },
    /// `SET <key> <value>`: store a value; the value is the rest of the line.
    Put { key: String, value: String },
}

impl View for Request {
    type V = RequestView;

    open spec fn view(&self) -> RequestView {
        match self {
            Request::Get { key } => RequestView::Get { key: key@ },
            Request::Put { key, value } => RequestView::Put { key: key@, value: value@ },
        }
    }
}

/// The result of reading a line: the request, or the error message.
pub open spec fn parse_request(line: Seq<char>) -> Result<RequestView, Seq<char>> {
    let (cmd, rest) = match split_at_space(line) {
        Some((a, b)) => (a, Some(b)),
        None => (line, None),
    };
    if cmd == "GET"@ {
        match rest {
            None => Err("Bad GET request.\nUsage: GET <key>"@),
            Some(r) => if space_free(r) {
                Ok(RequestView::Get { key: r })
            } else {
                Err("Bad GET request. Unexpected argument.\nUsage: GET <key>"@)
            },
        }
    } else if cmd == "SET"@ {
        match rest {
            None => Err("Bad SET request.\nUsage: SET <key> <value>"@),
            Some(r) => match split_at_space(r) {
                None => Err("Bad SET request.\nUsage: SET <key> <value>"@),
                Some((k, v)) => Ok(RequestView::Put { key: k, value: v }),
            },
        }
    } else {
        Err("Received unknown command: "@ + cmd)
    }
}

/// The view of a parse result.
pub open spec fn parse_result_view(r: Result<Request, String>) -> Result<RequestView, Seq<char>> {
    match r {
        Ok(req) => Ok(req@),
        Err(e) => Err(e@),
    }
}

/// The position of the first space in `cs` at or after `from`, if any.
fn find_space(cs: &Vec<char>, from: usize) -> (r: Option<usize>)
    requires
        from <= cs@.len(),
    ensures
        match r {
            Some(i) => from <= i < cs@.len() && is_first_space(
                cs@.subrange(from as int, cs@.len() as int),
                i - from,
            ),
            None => space_free(cs@.subrange(from as int, cs@.len() as int)),
        },
{
    let mut i = from;
    while i < cs.len()
        invariant
            from <= i <= cs@.len(),
            space_free(cs@.subrange(from as int, i as int)),
        decreases cs@.len() - i,
    {
        if cs[i] == ' ' {
            assert(cs@.subrange(from as int, cs@.len() as int).subrange(0, i - from) =~= cs@.subrange(
                from as int,
                i as int,
            ));
            return Some(i);
        }
        i = i + 1;
    }
    None
}

/// The first space of a sequence is where `split_at_space` cuts it.
proof fn lemma_split_at(s: Seq<char>, i: int)
    requires
        is_first_space(s, i),
    ensures
        split_at_space(s) == Some((s.subrange(0, i), s.subrange(i + 1, s.len() as int))),
{
    assert(!space_free(s)) by {
        assert(s[i] == ' ');
    }
    let c = choose|c: int| is_first_space(s, c);
    if c < i {
        assert(s.subrange(0, i)[c] == ' ');
    } else if i < c {
        assert(s.subrange(0, c)[i] == ' ');
    }
}

impl Request {
    /// Reads a request from one line: the words are separated by single
    /// spaces, and the value of a `SET` is the rest of the line after the key.
    pub fn parse(input: &str) -> (r: Result<Request, String>)
        ensures
            parse_result_view(r) == parse_request(input@),
    {
        let cs = chars_of(input);
        let n = cs.len();
        let first = find_space(&cs, 0);
        let cmd_end = match first {
            Some(i) => i,
            None => n,
        };
        proof {
            assert(cs@.subrange(0, n as int) =~= input@);
            match first {
                Some(i) => lemma_split_at(input@, i as int),
                None => {},
            }
        }
        let cmd = input.substring_char(0, cmd_end);
        let is_get = same_text(cmd, "GET");
        let is_set = same_text(cmd, "SET");
        if is_get {
            match first {
                None => Err(String::from_str("Bad GET request.\nUsage: GET <key>")),
                Some(i) => {
                    let second = find_space(&cs, i + 1);
                    proof {
                        assert(cs@.subrange(i + 1, n as int) =~= input@.subrange(i + 1, n as int));
                    }
                    match second {
                        None => {
                            let key = input.substring_char(i + 1, n);
                            Ok(Request::Get { key: key.to_owned() })
                        },
                        Some(j) => {
                            proof {
                                let rest = input@.subrange(i + 1, n as int);
                                assert(rest[j - i - 1] == ' ');
                            }
                            Err(String::from_str("Bad GET request. Unexpected argument.\nUsage: GET <key>"))
                        },
                    }
                },
            }
        } else if is_set {
            match first {
                None => Err(String::from_str("Bad SET request.\nUsage: SET <key> <value>")),
                Some(i) => {
                    let second = find_space(&cs, i + 1);
                    proof {
                        assert(cs@.subrange(i + 1, n as int) =~= input@.subrange(i + 1, n as int));
                    }
                    match second {
                        None => Err(String::from_str("Bad SET request.\nUsage: SET <key> <value>")),
                        Some(j) => {
                            let ghost rest = input@.subrange(i + 1, n as int);
                            proof {
                                lemma_split_at(rest, j - i - 1);
                                assert(rest.subrange(0, j - i - 1) =~= input@.subrange(i + 1, j as int));
                                assert(rest.subrange(j - i, rest.len() as int) =~= input@.subrange(j + 1, n as int));
                            }
                            let key = input.substring_char(i + 1, j);
                            let value = input.substring_char(j + 1, n);
                            Ok(Request::Put { key: key.to_owned(), value: value.to_owned() })
                        },
                    }
                },
            }
        } else {
            let mut msg = String::from_str("Received unknown command: ");
            msg.append(cmd);
            Err(msg)
        }
    }
}

/// Whether two strings hold the same characters.
fn same_text(a: &str, b: &str) -> (r: bool)
    ensures
        r == (a@ == b@),
{
    let x = chars_of(a);
    let y = chars_of(b);
    if x.len() != y.len() {
        return false;
    }
    let mut i: usize = 0;
    while i < x.len()
        invariant
            x@ == a@,
            y@ == b@,
            x@.len() == y@.len(),
            i <= x@.len(),
            forall|j: int| 0 <= j < i ==> x@[j] == y@[j],
        decreases x@.len() - i,
    {
        if x[i] != y[i] {
            return false;
        }
        i = i + 1;
    }
    assert(x@ =~= y@);
    true
}

/// What `{:?}` writes for a string: the text in double quotes, with
/// characters escaped as `str::escape_debug` does.
pub uninterp spec fn debug_text(s: Seq<char>) -> Seq<char>;

/// Relies on the `Debug` impl of `str` (through `format!("{:?}")`): the
/// quoted and escaped text depends on the characters alone.
#[verifier::external_body]
fn debug_quote(s: &str) -> (r: String)
    ensures
        r@ == debug_text(s@),
{
    format!("{:?}", s)
}

/// A response as mathematical values.
pub ghost enum ResponseView {
    Entry { key: Seq<char>, value: Seq<char> },
    Put { key: Seq<char>, value: Seq<char>, previous: Option<Seq<char>> },
    Error { message: Seq<char> },
}

/// The answer to one request.
pub enum Response {
    /// The value stored under a key.
    Entry { key: String, value: String },
    /// A value was stored; `previous` is the value it replaced.
    Put { key: String, value: String, previous: Option<String> },
    /// The request failed.
    Error { message: String },
}

impl View for Response {
    type V = ResponseView;

    open spec fn view(&self) -> ResponseView {
        match self {
            Response::Entry { key, value } => ResponseView::Entry { key: key@, value: value@ },
            Response::Put { key, value, previous } => ResponseView::Put {
                key: key@,
                value: value@,
                previous: match previous {
                    Some(p) => Some(p@),
                    None => None,
                },
            },
            Response::Error { message } => ResponseView::Error { message: message@ },
        }
    }
}

/// The line that reports a stored value, given the already quoted previous
/// value (as `{:?}` writes it), if there was one.
pub open spec fn put_text(key: Seq<char>, value: Seq<char>, quoted: Option<Seq<char>>) -> Seq<char> {
    key + ": "@ + value + "; previous: "@ + match quoted {
        Some(q) => "Some("@ + q + ")"@,
        None => "None"@,
    }
}

/// The text sent back for a response.
pub open spec fn response_text(r: ResponseView) -> Seq<char> {
    match r {
        ResponseView::Entry { key, value } => key + " => "@ + value,
        ResponseView::Put { key, value, previous } => put_text(
            key,
            value,
            match previous {
                Some(p) => Some(debug_text(p)),
                None => None,
            },
        ),
        ResponseView::Error { message } => "error: "@ + message,
    }
}

/// Writes the line that reports a stored value; `quoted` is the previous
/// value as `{:?}` writes it, if there was one.
pub fn put_line(key: &str, value: &str, quoted: &Option<String>) -> (r: String)
    ensures
        r@ == put_text(
            key@,
            value@,
            match quoted {
                Some(q) => Some(q@),
                None => None,
            },
        ),
{
    let mut out = String::from_str(key);
    out.append(": ");
    out.append(value);
    out.append("; previous: ");
    match quoted {
        Some(q) => {
            out.append("Some(");
            out.append(q.as_str());
            out.append(")");
        },
        None => {
            out.append("None");
        },
    }
    out
}

impl Response {
    /// The text sent back to the client for this response.
    pub fn to_bytes(&self) -> (r: String)
        ensures
            r@ == response_text(self@),
    {
        match self {
            Response::Entry { key, value } => {
                let mut out = String::from_str(key.as_str());
                out.append(" => ");
                out.append(value.as_str());
                out
            },
            Response::Put { key, value, previous } => {
                let quoted = match previous {
                    Some(p) => Some(debug_quote(p.as_str())),
                    None => None,
                };
                put_line(key.as_str(), value.as_str(), &quoted)
            },
            Response::Error { message } => {
                let mut out = String::from_str("error: ");
                out.append(message.as_str());
                out
            },
        }
    }
}

/// A table of string values keyed by string.
pub struct Database {
    pairs: Vec<(String, String)>,
    map: Ghost<Map<Seq<char>, Seq<char>>>,
}

impl View for Database {
    type V = Map<Seq<char>, Seq<char>>;

    closed spec fn view(&self) -> Map<Seq<char>, Seq<char>> {
        self.map@
    }
}

impl Database {
    /// The pairs have unique keys and the model maps each of them, and
    /// nothing else, to its value.
    pub closed spec fn wf(&self) -> bool {
        &&& forall|i: int, j: int|
            0 <= i < j < self.pairs@.len() ==> self.pairs@[i].0@ != self.pairs@[j].0@
        &&& forall|i: int|
            0 <= i < self.pairs@.len() ==> #[trigger] self.map@.contains_key(self.pairs@[i].0@)
                && self.map@[self.pairs@[i].0@] == self.pairs@[i].1@
        &&& forall|k: Seq<char>| #[trigger]
            self.map@.contains_key(k) ==> exists|i: int|
                0 <= i < self.pairs@.len() && self.pairs@[i].0@ == k
    }

    /// An empty table.
    pub fn new() -> (d: Database)
        ensures
            d.wf(),
            d@ == Map::<Seq<char>, Seq<char>>::empty(),
    {
        Database { pairs: Vec::new(), map: Ghost(Map::empty()) }
    }

    /// The position of `key` among the pairs, if it is stored.
    fn position(&self, key: &str) -> (r: Option<usize>)
        requires
            self.wf(),
        ensures
            match r {
                Some(i) => i < self.pairs@.len() && self.pairs@[i as int].0@ == key@,
                None => !self@.contains_key(key@),
            },
    {
        let owned = key.to_owned();
        let mut i: usize = 0;
        while i < self.pairs.len()
            invariant
                self.wf(),
                owned@ == key@,
                i <= self.pairs@.len(),
                forall|j: int| 0 <= j < i ==> self.pairs@[j].0@ != key@,
            decreases self.pairs@.len() - i,
        {
            if self.pairs[i].0 == owned {
                return Some(i);
            }
            i = i + 1;
        }
        None
    }

    /// A copy of the value stored under `key`, if any.
    pub fn get(&self, key: &str) -> (r: Option<String>)
        requires
            self.wf(),
        ensures
            match r {
                Some(v) => self@.contains_key(key@) && v@ == self@[key@],
                None => !self@.contains_key(key@),
            },
    {
        match self.position(key) {
            Some(i) => {
                assert(self.map@.contains_key(self.pairs@[i as int].0@));
                Some(self.pairs[i].1.clone())
            },
            None => None,
        }
    }

    /// Stores `value` under `key` and returns the value it replaces.
    pub fn set(&mut self, key: &str, value: &str) -> (r: Option<String>)
        requires
            old(self).wf(),
        ensures
            final(self).wf(),
            final(self)@ == old(self)@.insert(key@, value@),
            match r {
                Some(v) => old(self)@.contains_key(key@) && v@ == old(self)@[key@],
                None => !old(self)@.contains_key(key@),
            },
    {
        let ghost k = key@;
        let ghost v = value@;
        let pair = (key.to_owned(), value.to_owned());
        match self.position(key) {
            Some(i) => {
                self.pairs.push(pair);
                let prev = self.pairs.swap_remove(i);
                self.map = Ghost(self.map@.insert(k, v));
                proof {
                    assert(self.pairs@[i as int].0@ == k);
                    assert(old(self).map@.contains_key(k));
                    assert forall|j: int| 0 <= j < self.pairs@.len() implies #[trigger]
                        self.map@.contains_key(self.pairs@[j].0@) && self.map@[self.pairs@[j].0@]
                            == self.pairs@[j].1@ by {
                        if j != i {
                            assert(old(self).pairs@[j] == self.pairs@[j]);
                            if j < i {
                                assert(old(self).pairs@[j].0@ != old(self).pairs@[i as int].0@);
                            } else {
                                assert(old(self).pairs@[i as int].0@ != old(self).pairs@[j].0@);
                            }
                            assert(old(self).map@.contains_key(old(self).pairs@[j].0@));
                        }
                    }
                    assert forall|q: Seq<char>| #[trigger] self.map@.contains_key(q) implies exists|j: int|
                        0 <= j < self.pairs@.len() && self.pairs@[j].0@ == q by {
                        if q != k {
                            let j = choose|j: int| 0 <= j < old(self).pairs@.len() && old(self).pairs@[j].0@ == q;
                            assert(self.pairs@[j].0@ == q);
                        } else {
                            assert(self.pairs@[i as int].0@ == q);
                        }
                    }
                }
                Some(prev.1)
            },
            None => {
                self.pairs.push(pair);
                self.map = Ghost(self.map@.insert(k, v));
                proof {
                    let n = self.pairs@.len() - 1;
                    assert forall|j: int| 0 <= j < self.pairs@.len() implies #[trigger]
                        self.map@.contains_key(self.pairs@[j].0@) && self.map@[self.pairs@[j].0@]
                            == self.pairs@[j].1@ by {
                        if j != n {
                            assert(old(self).pairs@[j] == self.pairs@[j]);
                            assert(old(self).map@.contains_key(old(self).pairs@[j].0@));
                        }
                    }
                    assert forall|q: Seq<char>| #[trigger] self.map@.contains_key(q) implies exists|j: int|
                        0 <= j < self.pairs@.len() && self.pairs@[j].0@ == q by {
                        if q != k {
                            let j = choose|j: int| 0 <= j < old(self).pairs@.len() && old(self).pairs@[j].0@ == q;
                            assert(self.pairs@[j].0@ == q);
                        } else {
                            assert(self.pairs@[n].0@ == q);
                        }
                    }
                }
                None
            },
        }
    }
}

/// The response to a line and the table after it: a bad line is answered
/// with its error, a `GET` with the stored value (or an error naming the
/// missing key), a `SET` with the value it replaced, after storing the value.
pub open spec fn command_outcome(line: Seq<char>, db: Map<Seq<char>, Seq<char>>) -> (
    ResponseView,
    Map<Seq<char>, Seq<char>>,
) {
    match parse_request(line) {
        Err(message) => (ResponseView::Error { message }, db),
        Ok(RequestView::Get { key }) => if db.contains_key(key) {
            (ResponseView::Entry { key, value: db[key] }, db)
        } else {
            (ResponseView::Error { message: "Missing key! "@ + key }, db)
        },
        Ok(RequestView::Put { key, value }) => (
            ResponseView::Put {
                key,
                value,
                previous: if db.contains_key(key) {
                    Some(db[key])
                } else {
                    None
                },
            },
            db.insert(key, value),
        ),
    }
}

/// Reads one request line, carries it out on `database`, and returns the
/// response.
pub fn handle_command(line: &str, database: &mut Database) -> (r: Response)
    requires
        old(database).wf(),
    ensures
        final(database).wf(),
        (r@, final(database)@) == command_outcome(line@, old(database)@),
{
    let request = match Request::parse(line) {
        Ok(req) => req,
        Err(message) => return Response::Error { message },
    };
    match request {
        Request::Get { key } => match database.get(key.as_str()) {
            Some(value) => Response::Entry { key, value },
            None => {
                let mut message = String::from_str("Missing key! ");
                message.append(key.as_str());
                Response::Error { message }
            },
        },
        Request::Put { key, value } => {
            let previous = database.set(key.as_str(), value.as_str());
            Response::Put { key, value, previous }
        },
    }
}

} // verus!
