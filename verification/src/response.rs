use vstd::prelude::*;
use crate::json::Json;

verus! {

/// The text of a decimal digit.
pub open spec fn digit_v(d: nat) -> Seq<char> {
    if d == 0 {
        "0"@
    } else if d == 1 {
        "1"@
    } else if d == 2 {
        "2"@
    } else if d == 3 {
        "3"@
    } else if d == 4 {
        "4"@
    } else if d == 5 {
        "5"@
    } else if d == 6 {
        "6"@
    } else if d == 7 {
        "7"@
    } else if d == 8 {
        "8"@
    } else {
        "9"@
    }
}

/// The decimal text of a number, without leading zeros.
pub open spec fn nat_text(n: nat) -> Seq<char>
    decreases n,
{
    if n < 10 {
        digit_v(n)
    } else {
        nat_text(n / 10) + digit_v(n % 10)
    }
}

/// The decimal text of an integer, with a minus sign when it is negative.
pub open spec fn int_text(n: int) -> Seq<char> {
    if n < 0 {
        "-"@ + nat_text((-n) as nat)
    } else {
        nat_text(n as nat)
    }
}

fn digit_str(d: u64) -> (s: &'static str)
    requires
        d < 10,
    ensures
        s@ == digit_v(d as nat),
{
    if d == 0 {
        "0"
    } else if d == 1 {
        "1"
    } else if d == 2 {
        "2"
    } else if d == 3 {
        "3"
    } else if d == 4 {
        "4"
    } else if d == 5 {
        "5"
    } else if d == 6 {
        "6"
    } else if d == 7 {
        "7"
    } else if d == 8 {
        "8"
    } else {
        "9"
    }
}

fn nat_to_text(n: u64) -> (s: String)
    ensures
        s@ == nat_text(n as nat),
    decreases n,
{
    if n < 10 {
        digit_str(n).to_owned()
    } else {
        let mut s = nat_to_text(n / 10);
        s.append(digit_str(n % 10));
        s
    }
}

/// The decimal text of a number.
pub fn int_to_text(n: i32) -> (s: String)
    ensures
        s@ == int_text(n as int),
{
    if n < 0 {
        let m: i64 = 0i64 - (n as i64);
        let mut s = "-".to_owned();
        let t = nat_to_text(m as u64);
        s.append(t.as_str());
        s
    } else {
        nat_to_text(n as u64)
    }
}

/// A place in the text of a query: line and column, both counted from 1.
#[derive(PartialEq, Eq, Structural, Debug, Clone, Copy)]
pub struct Location {
    pub line: i32,
    pub column: i32,
}

impl Default for Location {
    fn default() -> (l: Location)
        ensures
            l.line == 0 && l.column == 0,
    {
        Location { line: 0, column: 0 }
    }
}

/// A step of a path in a query: a key in an object or an index in an array.
#[derive(Debug, Clone, PartialEq)]
pub enum PathFragment {
    Key(String),
    Index(i32),
}

impl PathFragment {
    pub open spec fn text(self) -> Seq<char> {
        match self {
            PathFragment::Key(k) => k@,
            PathFragment::Index(i) => int_text(i as int),
        }
    }

    pub fn to_string(&self) -> (s: String)
        ensures
            s@ == self.text(),
    {
        match self {
            PathFragment::Key(k) => k.clone(),
            PathFragment::Index(i) => int_to_text(*i),
        }
    }
}

/// An error that the server reports for a query.
#[derive(Debug, PartialEq)]
pub struct Error {
    /// What went wrong; the only field that is always there
    pub message: String,
    /// The places in the query that the error concerns
    pub locations: Option<Vec<Location>>,
    /// The path in the result that the error concerns, such as `users/0/email`
    pub path: Option<Vec<PathFragment>>,
    /// More of the error, in a form that the server decides
    pub extensions: Option<Vec<(String, Json)>>,
}

/// The fragments, each followed by a slash.
pub open spec fn joined(fs: Seq<PathFragment>) -> Seq<char>
    decreases fs.len(),
{
    if fs.len() == 0 {
        Seq::empty()
    } else {
        joined(fs.drop_last()) + fs.last().text() + "/"@
    }
}

/// The text without the slashes at its end.
pub open spec fn trim_slashes(s: Seq<char>) -> Seq<char>
    decreases s.len(),
{
    if s.len() > 0 && s.last() == '/' {
        trim_slashes(s.drop_last())
    } else {
        s
    }
}

impl Error {
    /// The path of the error, its fragments joined by slashes; `<query>` when there is none.
    pub open spec fn path_text(self) -> Seq<char> {
        match self.path {
            Some(fs) => trim_slashes(joined(fs@)),
            None => "<query>"@,
        }
    }

    /// The first location of the error, or line and column 0.
    pub open spec fn first_location(self) -> Location {
        match self.locations {
            Some(ls) => if ls@.len() > 0 {
                ls@[0]
            } else {
                Location { line: 0, column: 0 }
            },
            None => Location { line: 0, column: 0 },
        }
    }

    /// `path:line:column: message`.
    pub open spec fn text(self) -> Seq<char> {
        self.path_text() + ":"@ + int_text(self.first_location().line as int) + ":"@
            + int_text(self.first_location().column as int) + ": "@ + self.message@
    }

    /// The error as one line of text: `path:line:column: message`.
    pub fn to_string(&self) -> (s: String)
        ensures
            s@ == self.text(),
    {
        let path = match &self.path {
            Some(fs) => {
                let mut acc = String::new();
                let mut i: usize = 0;
                while i < fs.len()
                    invariant
                        i <= fs@.len(),
                        acc@ == joined(fs@.take(i as int)),
                    decreases fs@.len() - i,
                {
                    let t = fs[i].to_string();
                    acc.append(t.as_str());
                    acc.append("/");
                    proof {
                        assert(fs@.take(i + 1).drop_last() =~= fs@.take(i as int));
                    }
                    i = i + 1;
                }
                assert(fs@.take(fs@.len() as int) =~= fs@);
                trim_end_slashes(&acc)
            },
            None => "<query>".to_owned(),
        };
        let loc = match &self.locations {
            Some(ls) => if ls.len() > 0 {
                ls[0]
            } else {
                Location::default()
            },
            None => Location::default(),
        };
        let mut s = path;
        s.append(":");
        let line = int_to_text(loc.line);
        s.append(line.as_str());
        s.append(":");
        let column = int_to_text(loc.column);
        s.append(column.as_str());
        s.append(": ");
        s.append(self.message.as_str());
        s
    }
}

/// A copy of the text without the slashes at its end.
fn trim_end_slashes(s: &String) -> (r: String)
    ensures
        r@ == trim_slashes(s@),
{
    let t = s.as_str();
    let n = t.unicode_len();
    let mut k: usize = n;
    assert(s@.subrange(0, n as int) =~= s@);
    while k > 0 && t.get_char(k - 1) == '/'
        invariant
            k <= n,
            n == s@.len(),
            t@ == s@,
            trim_slashes(s@) == trim_slashes(s@.subrange(0, k as int)),
        decreases k,
    {
        proof {
            assert(s@.subrange(0, k as int).drop_last() =~= s@.subrange(0, k - 1));
        }
        k = k - 1;
    }
    t.substring_char(0, k).to_owned()
}

} // verus!
