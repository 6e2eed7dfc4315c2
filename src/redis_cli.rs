use vstd::prelude::*;
use vstd::string::*;
use vstd::slice::{slice_subrange, slice_to_vec};
use vstd::utf8::*;

verus! {

/// Connection settings of the client.
#[derive(Debug)]
pub struct Config {
    pub hostip: String,
    pub hostport: u16,
    pub repeat: i64,
    pub dbnum: u8,
    pub auth: Option<String>,
    pub interactive: bool,
}

impl Config {
    /// The defaults: local host, port 6379, one repetition, database 0, no
    /// password, not interactive.
    pub fn new() -> (r: Self)
        ensures
            r.hostip@ == "127.0.0.1"@,
            r.hostport == 6379,
            r.repeat == 1,
            r.dbnum == 0,
            r.auth is None,
            !r.interactive,
    {
        Config {
            hostip: String::from_str("127.0.0.1"),
            hostport: 6379,
            repeat: 1,
            dbnum: 0,
            auth: None,
            interactive: false,
        }
    }
}

/// A `Config` as plain values.
pub struct ConfigView {
    pub hostip: Seq<char>,
    pub hostport: u16,
    pub repeat: i64,
    pub dbnum: u8,
    pub auth: Option<Seq<char>>,
    pub interactive: bool,
}

impl View for Config {
    type V = ConfigView;

    open spec fn view(&self) -> ConfigView {
        ConfigView {
            hostip: self.hostip@,
            hostport: self.hostport,
            repeat: self.repeat,
            dbnum: self.dbnum,
            auth: match self.auth {
                Some(a) => Some(a@),
                None => None,
            },
            interactive: self.interactive,
        }
    }
}

/// Why the command line was refused, with the word at fault.
#[derive(Debug)]
pub enum OptionError {
    /// `-h` without a host after it.
    Usage,
    InvalidPort(String),
    InvalidRepeat(String),
    InvalidDbNum(String),
}

/// An `OptionError` as plain values.
pub enum OptionFault {
    Usage,
    InvalidPort(Seq<char>),
    InvalidRepeat(Seq<char>),
    InvalidDbNum(Seq<char>),
}

impl View for OptionError {
    type V = OptionFault;

    open spec fn view(&self) -> OptionFault {
        match self {
            OptionError::Usage => OptionFault::Usage,
            OptionError::InvalidPort(s) => OptionFault::InvalidPort(s@),
            OptionError::InvalidRepeat(s) => OptionFault::InvalidRepeat(s@),
            OptionError::InvalidDbNum(s) => OptionFault::InvalidDbNum(s@),
        }
    }
}

pub open spec fn is_digit(b: u8) -> bool {
    48 <= b && b <= 57
}

/// The number that a string of decimal digits denotes.
pub open spec fn digits_value(s: Seq<u8>) -> nat
    decreases s.len(),
{
    if s.len() == 0 {
        0
    } else {
        digits_value(s.drop_last()) * 10 + (s.last() - 48) as nat
    }
}

pub open spec fn all_digits(s: Seq<u8>) -> bool {
    forall|i: int| 0 <= i < s.len() ==> is_digit(#[trigger] s[i])
}

/// Whether `s` starts with a minus sign that the range `lo..` allows.
pub open spec fn negative_sign(s: Seq<u8>, lo: int) -> bool {
    s.len() > 0 && s[0] == 45 && lo < 0
}

/// `s` without its sign, if it has one.
pub open spec fn unsigned_part(s: Seq<u8>, lo: int) -> Seq<u8> {
    if s.len() > 0 && (s[0] == 43 || negative_sign(s, lo)) {
        s.drop_first()
    } else {
        s
    }
}

/// The integer written in `s`: an optional `+` (or `-` when `lo` is
/// negative), then one or more decimal digits, with a value in `lo..=hi`.
pub open spec fn int_value(s: Seq<u8>, lo: int, hi: int) -> Option<int> {
    let body = unsigned_part(s, lo);
    let v = if negative_sign(s, lo) {
        -digits_value(body)
    } else {
        digits_value(body) as int
    };
    if body.len() > 0 && all_digits(body) && lo <= v <= hi {
        Some(v)
    } else {
        None
    }
}

/// Bound above every magnitude that an `i64` or `u64` can hold.
const DIGITS_CAP: u128 = 18446744073709551616;

/// Reads the integer written in `s` if it lies in `lo..=hi`.
pub fn parse_int(s: &str, lo: i64, hi: i64) -> (r: Option<i64>)
    ensures
        match int_value(s.spec_bytes(), lo as int, hi as int) {
            Some(v) => r == Some(v as i64),
            None => r is None,
        },
{
    let b = s.as_bytes();
    let n = b.len();
    let neg = n > 0 && b[0] == 45 && lo < 0;
    let start: usize = if n > 0 && (b[0] == 43 || neg) { 1 } else { 0 };
    let ghost body = unsigned_part(b@, lo as int);
    assert(body =~= b@.subrange(start as int, n as int));
    if start == n {
        return None;
    }
    let mut acc: u128 = 0;
    let mut i: usize = start;
    while i < n
        invariant
            start <= i <= n,
            n == b@.len(),
            b@ == s.spec_bytes(),
            neg == negative_sign(b@, lo as int),
            body == unsigned_part(b@, lo as int),
            body == b@.subrange(start as int, n as int),
            forall|t: int| start <= t < i ==> is_digit(#[trigger] b@[t]),
            acc as int == if digits_value(body.take(i - start)) < DIGITS_CAP {
                digits_value(body.take(i - start)) as int
            } else {
                DIGITS_CAP as int
            },
        decreases n - i,
    {
        let c = b[i];
        if c < 48 || c > 57 {
            assert(!is_digit(body[i - start]));
            return None;
        }
        assert(body.take(i + 1 - start).drop_last() =~= body.take(i - start));
        assert(body.take(i + 1 - start).last() == c);
        let next = acc * 10 + (c - 48) as u128;
        acc = if next < DIGITS_CAP { next } else { DIGITS_CAP };
        i = i + 1;
    }
    assert(body.take(n - start) =~= body);
    assert forall|t: int| 0 <= t < body.len() implies is_digit(#[trigger] body[t]) by {
        assert(body[t] == b@[t + start]);
    }
    if acc >= DIGITS_CAP {
        return None;
    }
    let v: i128 = if neg { -(acc as i128) } else { acc as i128 };
    if (lo as i128) <= v && v <= (hi as i128) {
        Some(v as i64)
    } else {
        None
    }
}

/// Whether two strings are the same text.
fn same_text(a: &str, b: &str) -> (r: bool)
    ensures
        r == (a@ == b@),
{
    let x = a.as_bytes();
    let y = b.as_bytes();
    proof {
        encode_utf8_decode_utf8(a@);
        encode_utf8_decode_utf8(b@);
    }
    if x.len() != y.len() {
        return false;
    }
    let n = x.len();
    let mut i: usize = 0;
    while i < n
        invariant
            n == x@.len(),
            n == y@.len(),
            x@ == a.spec_bytes(),
            y@ == b.spec_bytes(),
            i <= n,
            forall|t: int| 0 <= t < i ==> x@[t] == y@[t],
        decreases n - i,
    {
        if x[i] != y[i] {
            return false;
        }
        i = i + 1;
    }
    assert(x@ =~= y@);
    true
}

/// The settings once the options from word `i` on are read into `c`, and
/// the index of the first word that is not an option; or why they were
/// refused. Word 0 is the program's name.
pub open spec fn options_from(c: ConfigView, args: Seq<String>, i: int) -> Result<
    (ConfigView, int),
    OptionFault,
>
    decreases args.len() - i,
{
    if i < 0 || i >= args.len() {
        Ok((c, i))
    } else {
        let a = args[i]@;
        let last = i == args.len() - 1;
        if a == "-h"@ {
            if last {
                Err(OptionFault::Usage)
            } else {
                options_from(ConfigView { hostip: args[i + 1]@, ..c }, args, i + 2)
            }
        } else if a == "-p"@ && !last {
            match int_value(encode_utf8(args[i + 1]@), 0, 65535) {
                Some(v) => options_from(ConfigView { hostport: v as u16, ..c }, args, i + 2),
                None => Err(OptionFault::InvalidPort(args[i + 1]@)),
            }
        } else if a == "-r"@ && !last {
            match int_value(encode_utf8(args[i + 1]@), i64::MIN as int, i64::MAX as int) {
                Some(v) => options_from(ConfigView { repeat: v as i64, ..c }, args, i + 2),
                None => Err(OptionFault::InvalidRepeat(args[i + 1]@)),
            }
        } else if a == "-n"@ && !last {
            match int_value(encode_utf8(args[i + 1]@), 0, 255) {
                Some(v) => options_from(ConfigView { dbnum: v as u8, ..c }, args, i + 2),
                None => Err(OptionFault::InvalidDbNum(args[i + 1]@)),
            }
        } else if a == "-a"@ && !last {
            options_from(ConfigView { auth: Some(args[i + 1]@), ..c }, args, i + 2)
        } else if a == "-i"@ {
            options_from(ConfigView { interactive: true, ..c }, args, i + 1)
        } else {
            Ok((c, i))
        }
    }
}

impl Config {
    /// Reads the options that follow the program's name: `-h host`,
    /// `-p port`, `-r repeat`, `-n db`, `-a password`, `-i`. Stops at the
    /// first other word and returns its index. The host is kept as written.
    pub fn parse_options(&mut self, args: &Vec<String>) -> (r: Result<usize, OptionError>)
        ensures
            match r {
                Ok(n) => options_from(old(self)@, args@, 1) == Ok::<(ConfigView, int), OptionFault>(
                    (final(self)@, n as int),
                ),
                Err(e) => options_from(old(self)@, args@, 1) == Err::<(ConfigView, int), OptionFault>(
                    e@,
                ),
            },
    {
        let argc = args.len();
        let mut i: usize = 1;
        while i < argc
            invariant
                argc == args@.len(),
                1 <= i <= argc + 1,
                options_from(old(self)@, args@, 1) == options_from(self@, args@, i as int),
            decreases argc + 1 - i,
        {
            let lastarg = i == argc - 1;
            let a = args[i].as_str();
            if same_text(a, "-h") {
                if lastarg {
                    return Err(OptionError::Usage);
                }
                self.hostip = args[i + 1].clone();
                i = i + 2;
            } else if same_text(a, "-p") && !lastarg {
                match parse_int(args[i + 1].as_str(), 0, 65535) {
                    Some(v) => {
                        self.hostport = v as u16;
                        i = i + 2;
                    },
                    None => {
                        return Err(OptionError::InvalidPort(args[i + 1].clone()));
                    },
                }
            } else if same_text(a, "-r") && !lastarg {
                match parse_int(args[i + 1].as_str(), i64::MIN, i64::MAX) {
                    Some(v) => {
                        self.repeat = v;
                        i = i + 2;
                    },
                    None => {
                        return Err(OptionError::InvalidRepeat(args[i + 1].clone()));
                    },
                }
            } else if same_text(a, "-n") && !lastarg {
                match parse_int(args[i + 1].as_str(), 0, 255) {
                    Some(v) => {
                        self.dbnum = v as u8;
                        i = i + 2;
                    },
                    None => {
                        return Err(OptionError::InvalidDbNum(args[i + 1].clone()));
                    },
                }
            } else if same_text(a, "-a") && !lastarg {
                self.auth = Some(args[i + 1].clone());
                i = i + 2;
            } else if same_text(a, "-i") {
                self.interactive = true;
                i = i + 1;
            } else {
                return Ok(i);
            }
        }
        Ok(i)
    }
}

/// How a command is put on the wire.
#[derive(Debug, Clone, Copy, PartialEq, Eq, Structural)]
pub enum CommandType {
    Inline,
    Bulk,
    MultiBulk,
}

/// Number of known commands.
pub const COMMAND_COUNT: usize = 91;

/// Name, arity and wire form of known command `i`. A positive arity is the
/// exact number of words, the name included; a negative one is minus the
/// least number.
pub open spec fn command_entry(i: int) -> (&'static str, i32, CommandType) {
    if i == 0 {
        ("AUTH", 2i32, CommandType::Inline)
    } else if i == 1 {
        ("GET", 2i32, CommandType::Inline)
    } else if i == 2 {
        ("SET", 3i32, CommandType::Bulk)
    } else if i == 3 {
        ("SETNX", 3i32, CommandType::Bulk)
    } else if i == 4 {
        ("APPEND", 3i32, CommandType::Bulk)
    } else if i == 5 {
        ("SUBSTR", 4i32, CommandType::Inline)
    } else if i == 6 {
        ("DEL", -2i32, CommandType::Inline)
    } else if i == 7 {
        ("EXISTS", 2i32, CommandType::Inline)
    } else if i == 8 {
        ("INCR", 2i32, CommandType::Inline)
    } else if i == 9 {
        ("DECR", 2i32, CommandType::Inline)
    } else if i == 10 {
        ("RPUSH", 3i32, CommandType::Bulk)
    } else if i == 11 {
        ("LPUSH", 3i32, CommandType::Bulk)
    } else if i == 12 {
        ("RPOP", 2i32, CommandType::Inline)
    } else if i == 13 {
        ("LPOP", 2i32, CommandType::Inline)
    } else if i == 14 {
        ("BRPOP", -3i32, CommandType::Inline)
    } else if i == 15 {
        ("BLPOP", -3i32, CommandType::Inline)
    } else if i == 16 {
        ("LLEN", 2i32, CommandType::Inline)
    } else if i == 17 {
        ("LINDEX", 3i32, CommandType::Inline)
    } else if i == 18 {
        ("LSET", 4i32, CommandType::Bulk)
    } else if i == 19 {
        ("LRANGE", 4i32, CommandType::Inline)
    } else if i == 20 {
        ("LTRIM", 4i32, CommandType::Inline)
    } else if i == 21 {
        ("LREM", 4i32, CommandType::Bulk)
    } else if i == 22 {
        ("RPOPLPUSH", 3i32, CommandType::Bulk)
    } else if i == 23 {
        ("SADD", 3i32, CommandType::Bulk)
    } else if i == 24 {
        ("SREM", 3i32, CommandType::Bulk)
    } else if i == 25 {
        ("SMOVE", 4i32, CommandType::Bulk)
    } else if i == 26 {
        ("SISMEMBER", 3i32, CommandType::Bulk)
    } else if i == 27 {
        ("SCARD", 2i32, CommandType::Inline)
    } else if i == 28 {
        ("SPOP", 2i32, CommandType::Inline)
    } else if i == 29 {
        ("SRANDMEMBER", 2i32, CommandType::Inline)
    } else if i == 30 {
        ("SINTER", -2i32, CommandType::Inline)
    } else if i == 31 {
        ("SINTERSTORE", -3i32, CommandType::Inline)
    } else if i == 32 {
        ("SUNION", -2i32, CommandType::Inline)
    } else if i == 33 {
        ("SUNIONSTORE", -3i32, CommandType::Inline)
    } else if i == 34 {
        ("SDIFF", -2i32, CommandType::Inline)
    } else if i == 35 {
        ("SDIFFSTORE", -3i32, CommandType::Inline)
    } else if i == 36 {
        ("SMEMBERS", 2i32, CommandType::Inline)
    } else if i == 37 {
        ("ZADD", 4i32, CommandType::Bulk)
    } else if i == 38 {
        ("ZINCRBY", 4i32, CommandType::Bulk)
    } else if i == 39 {
        ("ZREM", 3i32, CommandType::Bulk)
    } else if i == 40 {
        ("ZREMRANGEBYSCORE", 4i32, CommandType::Inline)
    } else if i == 41 {
        ("ZRANGE", -4i32, CommandType::Inline)
    } else if i == 42 {
        ("ZRANK", 3i32, CommandType::Bulk)
    } else if i == 43 {
        ("ZREVRANK", 3i32, CommandType::Bulk)
    } else if i == 44 {
        ("ZRANGEBYSCORE", -4i32, CommandType::Inline)
    } else if i == 45 {
        ("ZCOUNT", 4i32, CommandType::Inline)
    } else if i == 46 {
        ("ZREVRANGE", -4i32, CommandType::Inline)
    } else if i == 47 {
        ("ZCARD", 2i32, CommandType::Inline)
    } else if i == 48 {
        ("ZSCORE", 3i32, CommandType::Bulk)
    } else if i == 49 {
        ("INCRBY", 3i32, CommandType::Inline)
    } else if i == 50 {
        ("DECRBY", 3i32, CommandType::Inline)
    } else if i == 51 {
        ("GETSET", 3i32, CommandType::Bulk)
    } else if i == 52 {
        ("RANDOMKEY", 1i32, CommandType::Inline)
    } else if i == 53 {
        ("SELECT", 2i32, CommandType::Inline)
    } else if i == 54 {
        ("MOVE", 3i32, CommandType::Inline)
    } else if i == 55 {
        ("RENAME", 3i32, CommandType::Inline)
    } else if i == 56 {
        ("RENAMENX", 3i32, CommandType::Inline)
    } else if i == 57 {
        ("KEYS", 2i32, CommandType::Inline)
    } else if i == 58 {
        ("DBSIZE", 1i32, CommandType::Inline)
    } else if i == 59 {
        ("PING", 1i32, CommandType::Inline)
    } else if i == 60 {
        ("ECHO", 2i32, CommandType::Bulk)
    } else if i == 61 {
        ("SAVE", 1i32, CommandType::Inline)
    } else if i == 62 {
        ("BGSAVE", 1i32, CommandType::Inline)
    } else if i == 63 {
        ("BGREWRITEAOF", 1i32, CommandType::Inline)
    } else if i == 64 {
        ("SHUTDOWN", 1i32, CommandType::Inline)
    } else if i == 65 {
        ("LASTSAVE", 1i32, CommandType::Inline)
    } else if i == 66 {
        ("TYPE", 2i32, CommandType::Inline)
    } else if i == 67 {
        ("FLUSHDB", 1i32, CommandType::Inline)
    } else if i == 68 {
        ("FLUSHALL", 1i32, CommandType::Inline)
    } else if i == 69 {
        ("SORT", -2i32, CommandType::Inline)
    } else if i == 70 {
        ("INFO", 1i32, CommandType::Inline)
    } else if i == 71 {
        ("MGET", -2i32, CommandType::Inline)
    } else if i == 72 {
        ("EXPIRE", 3i32, CommandType::Inline)
    } else if i == 73 {
        ("EXPIREAT", 3i32, CommandType::Inline)
    } else if i == 74 {
        ("TTL", 2i32, CommandType::Inline)
    } else if i == 75 {
        ("SLAVEOF", 3i32, CommandType::Inline)
    } else if i == 76 {
        ("DEBUG", -2i32, CommandType::Inline)
    } else if i == 77 {
        ("MSET", -3i32, CommandType::MultiBulk)
    } else if i == 78 {
        ("MSETNX", -3i32, CommandType::MultiBulk)
    } else if i == 79 {
        ("MONITOR", 1i32, CommandType::Inline)
    } else if i == 80 {
        ("MULTI", 1i32, CommandType::Inline)
    } else if i == 81 {
        ("EXEC", 1i32, CommandType::Inline)
    } else if i == 82 {
        ("DISCARD", 1i32, CommandType::Inline)
    } else if i == 83 {
        ("HSET", 4i32, CommandType::MultiBulk)
    } else if i == 84 {
        ("HGET", 3i32, CommandType::Bulk)
    } else if i == 85 {
        ("HDEL", 3i32, CommandType::Bulk)
    } else if i == 86 {
        ("HLEN", 2i32, CommandType::Inline)
    } else if i == 87 {
        ("HKEYS", 2i32, CommandType::Inline)
    } else if i == 88 {
        ("HVALS", 2i32, CommandType::Inline)
    } else if i == 89 {
        ("HGETALL", 2i32, CommandType::Inline)
    } else {
        ("HEXISTS", 3i32, CommandType::Bulk)
    }
}

/// Known command `i`.
fn command_at(i: usize) -> (r: (&'static str, i32, CommandType))
    requires
        i < COMMAND_COUNT,
    ensures
        r == command_entry(i as int),
{
    if i == 0 {
        ("AUTH", 2, CommandType::Inline)
    } else if i == 1 {
        ("GET", 2, CommandType::Inline)
    } else if i == 2 {
        ("SET", 3, CommandType::Bulk)
    } else if i == 3 {
        ("SETNX", 3, CommandType::Bulk)
    } else if i == 4 {
        ("APPEND", 3, CommandType::Bulk)
    } else if i == 5 {
        ("SUBSTR", 4, CommandType::Inline)
    } else if i == 6 {
        ("DEL", -2, CommandType::Inline)
    } else if i == 7 {
        ("EXISTS", 2, CommandType::Inline)
    } else if i == 8 {
        ("INCR", 2, CommandType::Inline)
    } else if i == 9 {
        ("DECR", 2, CommandType::Inline)
    } else if i == 10 {
        ("RPUSH", 3, CommandType::Bulk)
    } else if i == 11 {
        ("LPUSH", 3, CommandType::Bulk)
    } else if i == 12 {
        ("RPOP", 2, CommandType::Inline)
    } else if i == 13 {
        ("LPOP", 2, CommandType::Inline)
    } else if i == 14 {
        ("BRPOP", -3, CommandType::Inline)
    } else if i == 15 {
        ("BLPOP", -3, CommandType::Inline)
    } else if i == 16 {
        ("LLEN", 2, CommandType::Inline)
    } else if i == 17 {
        ("LINDEX", 3, CommandType::Inline)
    } else if i == 18 {
        ("LSET", 4, CommandType::Bulk)
    } else if i == 19 {
        ("LRANGE", 4, CommandType::Inline)
    } else if i == 20 {
        ("LTRIM", 4, CommandType::Inline)
    } else if i == 21 {
        ("LREM", 4, CommandType::Bulk)
    } else if i == 22 {
        ("RPOPLPUSH", 3, CommandType::Bulk)
    } else if i == 23 {
        ("SADD", 3, CommandType::Bulk)
    } else if i == 24 {
        ("SREM", 3, CommandType::Bulk)
    } else if i == 25 {
        ("SMOVE", 4, CommandType::Bulk)
    } else if i == 26 {
        ("SISMEMBER", 3, CommandType::Bulk)
    } else if i == 27 {
        ("SCARD", 2, CommandType::Inline)
    } else if i == 28 {
        ("SPOP", 2, CommandType::Inline)
    } else if i == 29 {
        ("SRANDMEMBER", 2, CommandType::Inline)
    } else if i == 30 {
        ("SINTER", -2, CommandType::Inline)
    } else if i == 31 {
        ("SINTERSTORE", -3, CommandType::Inline)
    } else if i == 32 {
        ("SUNION", -2, CommandType::Inline)
    } else if i == 33 {
        ("SUNIONSTORE", -3, CommandType::Inline)
    } else if i == 34 {
        ("SDIFF", -2, CommandType::Inline)
    } else if i == 35 {
        ("SDIFFSTORE", -3, CommandType::Inline)
    } else if i == 36 {
        ("SMEMBERS", 2, CommandType::Inline)
    } else if i == 37 {
        ("ZADD", 4, CommandType::Bulk)
    } else if i == 38 {
        ("ZINCRBY", 4, CommandType::Bulk)
    } else if i == 39 {
        ("ZREM", 3, CommandType::Bulk)
    } else if i == 40 {
        ("ZREMRANGEBYSCORE", 4, CommandType::Inline)
    } else if i == 41 {
        ("ZRANGE", -4, CommandType::Inline)
    } else if i == 42 {
        ("ZRANK", 3, CommandType::Bulk)
    } else if i == 43 {
        ("ZREVRANK", 3, CommandType::Bulk)
    } else if i == 44 {
        ("ZRANGEBYSCORE", -4, CommandType::Inline)
    } else if i == 45 {
        ("ZCOUNT", 4, CommandType::Inline)
    } else if i == 46 {
        ("ZREVRANGE", -4, CommandType::Inline)
    } else if i == 47 {
        ("ZCARD", 2, CommandType::Inline)
    } else if i == 48 {
        ("ZSCORE", 3, CommandType::Bulk)
    } else if i == 49 {
        ("INCRBY", 3, CommandType::Inline)
    } else if i == 50 {
        ("DECRBY", 3, CommandType::Inline)
    } else if i == 51 {
        ("GETSET", 3, CommandType::Bulk)
    } else if i == 52 {
        ("RANDOMKEY", 1, CommandType::Inline)
    } else if i == 53 {
        ("SELECT", 2, CommandType::Inline)
    } else if i == 54 {
        ("MOVE", 3, CommandType::Inline)
    } else if i == 55 {
        ("RENAME", 3, CommandType::Inline)
    } else if i == 56 {
        ("RENAMENX", 3, CommandType::Inline)
    } else if i == 57 {
        ("KEYS", 2, CommandType::Inline)
    } else if i == 58 {
        ("DBSIZE", 1, CommandType::Inline)
    } else if i == 59 {
        ("PING", 1, CommandType::Inline)
    } else if i == 60 {
        ("ECHO", 2, CommandType::Bulk)
    } else if i == 61 {
        ("SAVE", 1, CommandType::Inline)
    } else if i == 62 {
        ("BGSAVE", 1, CommandType::Inline)
    } else if i == 63 {
        ("BGREWRITEAOF", 1, CommandType::Inline)
    } else if i == 64 {
        ("SHUTDOWN", 1, CommandType::Inline)
    } else if i == 65 {
        ("LASTSAVE", 1, CommandType::Inline)
    } else if i == 66 {
        ("TYPE", 2, CommandType::Inline)
    } else if i == 67 {
        ("FLUSHDB", 1, CommandType::Inline)
    } else if i == 68 {
        ("FLUSHALL", 1, CommandType::Inline)
    } else if i == 69 {
        ("SORT", -2, CommandType::Inline)
    } else if i == 70 {
        ("INFO", 1, CommandType::Inline)
    } else if i == 71 {
        ("MGET", -2, CommandType::Inline)
    } else if i == 72 {
        ("EXPIRE", 3, CommandType::Inline)
    } else if i == 73 {
        ("EXPIREAT", 3, CommandType::Inline)
    } else if i == 74 {
        ("TTL", 2, CommandType::Inline)
    } else if i == 75 {
        ("SLAVEOF", 3, CommandType::Inline)
    } else if i == 76 {
        ("DEBUG", -2, CommandType::Inline)
    } else if i == 77 {
        ("MSET", -3, CommandType::MultiBulk)
    } else if i == 78 {
        ("MSETNX", -3, CommandType::MultiBulk)
    } else if i == 79 {
        ("MONITOR", 1, CommandType::Inline)
    } else if i == 80 {
        ("MULTI", 1, CommandType::Inline)
    } else if i == 81 {
        ("EXEC", 1, CommandType::Inline)
    } else if i == 82 {
        ("DISCARD", 1, CommandType::Inline)
    } else if i == 83 {
        ("HSET", 4, CommandType::MultiBulk)
    } else if i == 84 {
        ("HGET", 3, CommandType::Bulk)
    } else if i == 85 {
        ("HDEL", 3, CommandType::Bulk)
    } else if i == 86 {
        ("HLEN", 2, CommandType::Inline)
    } else if i == 87 {
        ("HKEYS", 2, CommandType::Inline)
    } else if i == 88 {
        ("HVALS", 2, CommandType::Inline)
    } else if i == 89 {
        ("HGETALL", 2, CommandType::Inline)
    } else {
        ("HEXISTS", 3, CommandType::Bulk)
    }
}

/// ASCII upper-case letters to lower case; other bytes unchanged.
pub open spec fn ascii_lower(b: u8) -> u8 {
    if 65 <= b && b <= 90 {
        (b + 32) as u8
    } else {
        b
    }
}

/// Equal up to the case of ASCII letters.
pub open spec fn eq_ignore_case(a: Seq<u8>, b: Seq<u8>) -> bool {
    &&& a.len() == b.len()
    &&& forall|i: int| 0 <= i < a.len() ==> ascii_lower(#[trigger] a[i]) == ascii_lower(b[i])
}

/// Whether known command `i` is called `name`, ignoring ASCII case.
pub open spec fn names_command(i: int, name: Seq<u8>) -> bool {
    eq_ignore_case(command_entry(i).0.spec_bytes(), name)
}

/// Whether `argc` words, the name included, suit `arity`.
pub open spec fn arity_ok(arity: i32, argc: int) -> bool {
    !((arity > 0 && arity != argc) || (arity < 0 && argc < -arity))
}

fn lower_byte(b: u8) -> (r: u8)
    ensures
        r == ascii_lower(b),
{
    if 65 <= b && b <= 90 {
        b + 32
    } else {
        b
    }
}

fn eq_ignore_ascii_case(a: &str, b: &str) -> (r: bool)
    ensures
        r == eq_ignore_case(a.spec_bytes(), b.spec_bytes()),
{
    let x = a.as_bytes();
    let y = b.as_bytes();
    if x.len() != y.len() {
        return false;
    }
    let n = x.len();
    let mut i: usize = 0;
    while i < n
        invariant
            n == x@.len(),
            n == y@.len(),
            x@ == a.spec_bytes(),
            y@ == b.spec_bytes(),
            i <= n,
            forall|t: int| 0 <= t < i ==> ascii_lower(#[trigger] x@[t]) == ascii_lower(y@[t]),
        decreases n - i,
    {
        if lower_byte(x[i]) != lower_byte(y[i]) {
            return false;
        }
        i = i + 1;
    }
    true
}

/// The first known command called `name`, ignoring ASCII case.
fn find_command(name: &str) -> (r: Option<usize>)
    ensures
        match r {
            Some(i) => {
                &&& i < COMMAND_COUNT
                &&& names_command(i as int, name.spec_bytes())
                &&& forall|j: int| 0 <= j < i ==> !names_command(j, name.spec_bytes())
            },
            None => forall|j: int| 0 <= j < COMMAND_COUNT ==> !names_command(j, name.spec_bytes()),
        },
{
    let mut i: usize = 0;
    while i < COMMAND_COUNT
        invariant
            i <= COMMAND_COUNT,
            forall|j: int| 0 <= j < i ==> !names_command(j, name.spec_bytes()),
        decreases COMMAND_COUNT - i,
    {
        let entry = command_at(i);
        if eq_ignore_ascii_case(entry.0, name) {
            return Some(i);
        }
        i = i + 1;
    }
    None
}

/// Digit `d` as a character.
pub open spec fn digit_char(d: nat) -> char {
    "0123456789"@[d as int]
}

/// Decimal notation of `n`.
pub open spec fn decimal(n: nat) -> Seq<char>
    decreases n,
{
    if n < 10 {
        seq![digit_char(n)]
    } else {
        decimal(n / 10) + seq![digit_char(n % 10)]
    }
}

fn digit_str(d: usize) -> (r: &'static str)
    requires
        d < 10,
    ensures
        r@ == seq![digit_char(d as nat)],
{
    proof {
        reveal_strlit("0123456789");
        reveal_strlit("0");
        reveal_strlit("1");
        reveal_strlit("2");
        reveal_strlit("3");
        reveal_strlit("4");
        reveal_strlit("5");
        reveal_strlit("6");
        reveal_strlit("7");
        reveal_strlit("8");
        reveal_strlit("9");
    }
    let r = if d == 0 {
        "0"
    } else if d == 1 {
        "1"
    } else if d == 2 {
        "2"
    } else if d == 3 {
        "3"
    } else if d == 4 {
        "4"
    } else if d == 5 {
        "5"
    } else if d == 6 {
        "6"
    } else if d == 7 {
        "7"
    } else if d == 8 {
        "8"
    } else {
        "9"
    };
    assert(r@ =~= seq![digit_char(d as nat)]);
    r
}

/// Appends the decimal notation of `n` to `out`.
fn push_decimal(out: &mut String, n: usize)
    ensures
        final(out)@ == old(out)@ + decimal(n as nat),
    decreases n,
{
    if n >= 10 {
        push_decimal(out, n / 10);
    }
    out.append(digit_str(n % 10));
    assert(out@ =~= old(out)@ + decimal(n as nat));
}

/// A command checked against the table, ready to be sent.
#[derive(Debug, Clone)]
pub struct RedisCommand<'a> {
    pub name: &'a str,
    pub arity: i32,
    pub flags: CommandType,
    pub argv: Vec<&'a str>,
}

/// One argument in bulk form: `$<byte length>\r\n<text>\r\n`.
pub open spec fn bulk_item(s: &str) -> Seq<char> {
    "$"@ + decimal(s.len() as nat) + "\r\n"@ + s@ + "\r\n"@
}

pub open spec fn bulk_items(args: Seq<&str>) -> Seq<char>
    decreases args.len(),
{
    if args.len() == 0 {
        Seq::empty()
    } else {
        bulk_items(args.drop_last()) + bulk_item(args.last())
    }
}

/// Each argument preceded by a space.
pub open spec fn inline_items(args: Seq<&str>) -> Seq<char>
    decreases args.len(),
{
    if args.len() == 0 {
        Seq::empty()
    } else {
        inline_items(args.drop_last()) + " "@ + args.last()@
    }
}

/// The wire form of a command: one line of words for inline commands, else
/// a count of bulk items followed by the name and each argument in bulk form.
pub open spec fn resp_of(name: &str, flags: CommandType, argv: Seq<&str>) -> Seq<char> {
    match flags {
        CommandType::Inline => name@ + inline_items(argv) + "\r\n"@,
        _ => "*"@ + decimal(argv.len() + 1) + "\r\n"@ + bulk_item(name) + bulk_items(argv),
    }
}

impl<'a> RedisCommand<'a> {
    /// Looks up `args[0]` in the table, ignoring ASCII case, and checks the
    /// number of words against its arity.
    pub fn build(args: Vec<&'a str>) -> (r: Result<Self, String>)
        requires
            1 <= args@.len() <= i32::MAX,
        ensures
            (forall|j: int| 0 <= j < COMMAND_COUNT ==> !names_command(j, args@[0].spec_bytes()))
                ==> (r matches Err(e) && e@ == "Unknown command: "@ + args@[0]@),
            forall|i: int|
                0 <= i < COMMAND_COUNT && #[trigger] names_command(i, args@[0].spec_bytes())
                    && (forall|j: int| 0 <= j < i ==> !names_command(j, args@[0].spec_bytes())) ==> {
                    let (name, arity, flags) = command_entry(i);
                    if arity_ok(arity, args@.len() as int) {
                        &&& r matches Ok(c)
                        &&& c.name == name
                        &&& c.arity == arity
                        &&& c.flags == flags
                        &&& c.argv@ == args@.subrange(1, args@.len() as int)
                    } else {
                        (r matches Err(e) && e@ == "Wrong number of arguments for '"@ + name@ + "'"@)
                    }
                },
    {
        let found = find_command(args[0]);
        match found {
            None => {
                let mut e = String::from_str("Unknown command: ");
                e.append(args[0]);
                Err(e)
            },
            Some(i) => {
                let (name, arity, flags) = command_at(i);
                let argc = args.len() as i32;
                proof {
                    assert forall|k: int|
                        0 <= k < COMMAND_COUNT && #[trigger] names_command(k, args@[0].spec_bytes())
                            && (forall|j: int| 0 <= j < k ==> !names_command(j, args@[0].spec_bytes()))
                            implies k == i by {
                        if k > i {
                            assert(names_command(i as int, args@[0].spec_bytes()));
                        }
                    }
                }
                if (arity > 0 && arity != argc) || (arity < 0 && (argc as i64) < -(arity as i64)) {
                    let mut e = String::from_str("Wrong number of arguments for '");
                    e.append(name);
                    e.append("'");
                    Err(e)
                } else {
                    let argv = slice_to_vec(slice_subrange(args.as_slice(), 1, args.len()));
                    Ok(RedisCommand { name, arity, flags, argv })
                }
            },
        }
    }

    /// The text that sends this command to the server.
    pub fn to_resp(&self) -> (r: String)
        requires
            self.argv@.len() < usize::MAX,
        ensures
            r@ == resp_of(self.name, self.flags, self.argv@),
    {
        let n = self.argv.len();
        match self.flags {
            CommandType::Inline => {
                let mut s = String::from_str(self.name);
                let mut i: usize = 0;
                while i < n
                    invariant
                        n == self.argv@.len(),
                        i <= n,
                        s@ == self.name@ + inline_items(self.argv@.take(i as int)),
                    decreases n - i,
                {
                    s.append(" ");
                    s.append(self.argv[i]);
                    proof {
                        assert(self.argv@.take(i + 1).drop_last() =~= self.argv@.take(i as int));
                    }
                    i = i + 1;
                    assert(s@ =~= self.name@ + inline_items(self.argv@.take(i as int)));
                }
                s.append("\r\n");
                assert(self.argv@.take(n as int) =~= self.argv@);
                s
            },
            _ => {
                let mut s = String::from_str("*");
                push_decimal(&mut s, n + 1);
                s.append("\r\n");
                push_bulk(&mut s, self.name);
                let mut i: usize = 0;
                while i < n
                    invariant
                        n == self.argv@.len(),
                        i <= n,
                        s@ == "*"@ + decimal((n + 1) as nat) + "\r\n"@ + bulk_item(self.name)
                            + bulk_items(self.argv@.take(i as int)),
                    decreases n - i,
                {
                    push_bulk(&mut s, self.argv[i]);
                    proof {
                        assert(self.argv@.take(i + 1).drop_last() =~= self.argv@.take(i as int));
                    }
                    i = i + 1;
                    assert(s@ =~= "*"@ + decimal((n + 1) as nat) + "\r\n"@ + bulk_item(self.name)
                        + bulk_items(self.argv@.take(i as int)));
                }
                assert(self.argv@.take(n as int) =~= self.argv@);
                s
            },
        }
    }
}

/// Appends `a` in bulk form.
fn push_bulk(out: &mut String, a: &str)
    ensures
        final(out)@ == old(out)@ + bulk_item(a),
{
    out.append("$");
    push_decimal(out, a.len());
    out.append("\r\n");
    out.append(a);
    out.append("\r\n");
    assert(out@ =~= old(out)@ + bulk_item(a));
}

/// The kinds of server reply, told apart by their first byte.
#[derive(Debug, Clone, Copy, PartialEq, Eq, Structural)]
pub enum ReplyKind {
    /// `+`: a status line.
    Status,
    /// `-`: an error line.
    Error,
    /// `:`: an integer line.
    Integer,
    /// `$`: a length line, then that many bytes.
    Bulk,
    /// `*`: a count line, then that many replies.
    MultiBulk,
}

pub open spec fn kind_of_byte(b: u8) -> Option<ReplyKind> {
    if b == 43 {
        Some(ReplyKind::Status)
    } else if b == 45 {
        Some(ReplyKind::Error)
    } else if b == 58 {
        Some(ReplyKind::Integer)
    } else if b == 36 {
        Some(ReplyKind::Bulk)
    } else if b == 42 {
        Some(ReplyKind::MultiBulk)
    } else {
        None
    }
}

/// The kind of reply that starts with byte `b`, if any.
pub fn reply_kind(b: u8) -> (r: Option<ReplyKind>)
    ensures
        r == kind_of_byte(b),
{
    if b == 43 {
        Some(ReplyKind::Status)
    } else if b == 45 {
        Some(ReplyKind::Error)
    } else if b == 58 {
        Some(ReplyKind::Integer)
    } else if b == 36 {
        Some(ReplyKind::Bulk)
    } else if b == 42 {
        Some(ReplyKind::MultiBulk)
    } else {
        None
    }
}

} // verus!
