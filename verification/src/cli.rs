//! The command-line shape of a node and the checks on its arguments.
use vstd::prelude::*;
use vstd::string::StrSliceExecFns;

verus! {

/// Text of the error for a replication factor that is no unsigned integer.
pub open spec fn not_an_integer_message() -> Seq<char> {
    "replication_factor must be a positive integer"@
}

/// Text of the error for a replication factor of zero.
pub open spec fn zero_factor_message() -> Seq<char> {
    "replication_factor must be at least 1"@
}

/// Whether `c` is one of the decimal digits `0` to `9`.
pub open spec fn is_ascii_digit(c: char) -> bool {
    '0' <= c && c <= '9'
}

/// Whether every character of `s` is a decimal digit.
pub open spec fn all_digits(s: Seq<char>) -> bool {
    forall|i: int| 0 <= i < s.len() ==> is_ascii_digit(#[trigger] s[i])
}

/// The number that a string of decimal digits denotes.
pub open spec fn digits_value(s: Seq<char>) -> nat
    decreases s.len(),
{
    if s.len() == 0 {
        0
    } else {
        digits_value(s.drop_last()) * 10 + ((s.last() as int) - ('0' as int)) as nat
    }
}

/// The digits of an unsigned number as text: an optional leading `+` is dropped.
pub open spec fn unsigned_digits(s: Seq<char>) -> Seq<char> {
    if s.len() > 0 && s[0] == '+' {
        s.drop_first()
    } else {
        s
    }
}

/// What reading the text as a `usize` gives: the value where the text is an
/// optional `+` followed by at least one decimal digit and the value fits.
pub open spec fn usize_of_text(s: Seq<char>) -> Option<usize> {
    let d = unsigned_digits(s);
    if d.len() > 0 && all_digits(d) && digits_value(d) <= usize::MAX {
        Some(digits_value(d) as usize)
    } else {
        None
    }
}

proof fn lemma_digits_value_grows(s: Seq<char>, j: int)
    requires
        all_digits(s),
        0 <= j <= s.len(),
    ensures
        digits_value(s.subrange(0, j)) <= digits_value(s),
    decreases s.len() - j,
{
    if j < s.len() {
        lemma_digits_value_grows(s, j + 1);
        let p = s.subrange(0, j + 1);
        assert(p.drop_last() =~= s.subrange(0, j));
    } else {
        assert(s.subrange(0, j) =~= s);
    }
}

/// Reads a replication factor: a positive integer.
pub fn parse_replication_factor(value: &str) -> (res: Result<usize, String>)
    ensures
        match usize_of_text(value@) {
            None => res matches Err(e) && e@ == not_an_integer_message(),
            Some(n) => if n == 0 {
                res matches Err(e) && e@ == zero_factor_message()
            } else {
                res == Ok::<usize, String>(n)
            },
        },
{
    let len = value.unicode_len();
    let ghost s = value@;
    let start: usize = if len > 0 && value.get_char(0) == '+' {
        1
    } else {
        0
    };
    let ghost d = unsigned_digits(s);
    let not_integer = "replication_factor must be a positive integer";
    proof {
        reveal_strlit("replication_factor must be a positive integer");
    }
    if start >= len {
        let e = not_integer.to_owned();
        return Err(e);
    }
    let mut acc: usize = 0;
    let mut i: usize = start;
    while i < len
        invariant
            start <= i <= len,
            len == s.len(),
            s == value@,
            d =~= s.subrange(start as int, s.len() as int),
            d == unsigned_digits(s),
            all_digits(d.subrange(0, i - start)),
            acc == digits_value(d.subrange(0, i - start)),
            not_integer@ == not_an_integer_message(),
        decreases len - i,
    {
        let c = value.get_char(i);
        let ghost p = d.subrange(0, i - start);
        let ghost q = d.subrange(0, i + 1 - start);
        assert(q.drop_last() =~= p);
        assert(q.last() == c);
        if !('0' <= c && c <= '9') {
            return Err(not_integer.to_owned());
        }
        let digit = (c as u32 - '0' as u32) as usize;
        let next = match acc.checked_mul(10) {
            Some(t) => t.checked_add(digit),
            None => None,
        };
        match next {
            Some(n) => {
                acc = n;
            },
            None => {
                proof {
                    if all_digits(d) {
                        lemma_digits_value_grows(d, i + 1 - start);
                    }
                }
                return Err(not_integer.to_owned());
            },
        }
        i += 1;
    }
    assert(d.subrange(0, len - start) =~= d);
    if acc == 0 {
        let zero = "replication_factor must be at least 1";
        proof {
            reveal_strlit("replication_factor must be at least 1");
        }
        let e = zero.to_owned();
        Err(e)
    } else {
        Ok(acc)
    }
}

/// Arguments that every node takes.
#[derive(Debug)]
pub struct CommonArgs {
    pub grpc_port: u16,
    pub self_host: String,
    pub self_port: Option<u16>,
}

impl CommonArgs {
    /// The arguments as given on the command line.
    pub fn new(grpc_port: u16, self_host: String, self_port: Option<u16>) -> (a: Self)
        ensures
            a.grpc_port == grpc_port,
            a.self_host == self_host,
            a.self_port_spec() == match self_port {
                Some(p) => p,
                None => grpc_port,
            },
    {
        CommonArgs { grpc_port, self_host, self_port }
    }

    /// The port that peers reach this node on.
    pub open spec fn self_port_spec(&self) -> u16 {
        match self.self_port {
            Some(p) => p,
            None => self.grpc_port,
        }
    }

    /// The port that peers reach this node on: the given one, else the gRPC port.
    pub fn self_port(&self) -> (p: u16)
        ensures
            p == match self.self_port {
                Some(q) => q,
                None => self.grpc_port,
            },
            p == self.self_port_spec(),
    {
        match self.self_port {
            Some(p) => p,
            None => self.grpc_port,
        }
    }
}

/// The two kinds of node the program runs as.
#[derive(Debug)]
pub enum Command {
    Manager {
        common: CommonArgs,
        manager_host: Option<String>,
        manager_port: Option<u16>,
        replication_factor: usize,
    },
    Worker { common: CommonArgs, manager_host: String, manager_port: u16 },
}

/// The parsed command line.
#[derive(Debug)]
pub struct Cli {
    pub command: Command,
}

} // verus!
