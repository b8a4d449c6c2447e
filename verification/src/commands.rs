//! The commands: their names, argument checks, and the replies they send.
use crate::resp::{bulk, bulk_reply, error, error_reply, integer, integer_reply, null_bulk, null_reply};
use crate::rank::{best_of, first_best, first_reaching, rank, ranked, take_reaching};
use crate::shard::{is_expired, Shard};
use crate::text::{decimal, parse_u64, parse_unsigned, parse_usize, str_equal, to_upper, unicode_upper};
use crate::value::{DbValue, ValueView};
use vstd::prelude::*;

verus! {

fn concat(a: String, b: &str) -> (r: String)
    ensures
        r@ == a@ + b@,
{
    let mut a = a;
    a.append(b);
    a
}

fn owned(s: &str) -> (r: String)
    ensures
        r@ == s@,
{
    s.to_owned()
}

/// The command a request names (one per command type of the server).
pub enum CommandKind {
    SetCommand,
    GetCommand,
    DelCommand,
    ExpireCommand,
    PingCommand,
    SgetCommand,
    SearchCommand,
    VgetCommand,
    SimilarityCommand,
    LpushCommand,
    HsetCommand,
    HgetCommand,
    InfoCommand,
    StatsCommand,
    ExportCommand,
    RewriteCommand,
    SnapshotCommand,
    ShutdownCommand,
}

/// The command registered under an (upper-case) name.
pub open spec fn command_named(name: Seq<char>) -> Option<CommandKind> {
    if name == "SET"@ {
        Some(CommandKind::SetCommand)
    } else if name == "GET"@ {
        Some(CommandKind::GetCommand)
    } else if name == "DEL"@ {
        Some(CommandKind::DelCommand)
    } else if name == "EXPIRE"@ {
        Some(CommandKind::ExpireCommand)
    } else if name == "PING"@ {
        Some(CommandKind::PingCommand)
    } else if name == "SGET"@ {
        Some(CommandKind::SgetCommand)
    } else if name == "SEARCH"@ {
        Some(CommandKind::SearchCommand)
    } else if name == "VGET"@ {
        Some(CommandKind::VgetCommand)
    } else if name == "SIMILARITY"@ {
        Some(CommandKind::SimilarityCommand)
    } else if name == "LPUSH"@ {
        Some(CommandKind::LpushCommand)
    } else if name == "HSET"@ {
        Some(CommandKind::HsetCommand)
    } else if name == "HGET"@ {
        Some(CommandKind::HgetCommand)
    } else if name == "INFO"@ {
        Some(CommandKind::InfoCommand)
    } else if name == "STATS"@ {
        Some(CommandKind::StatsCommand)
    } else if name == "EXPORT"@ {
        Some(CommandKind::ExportCommand)
    } else if name == "REWRITE"@ {
        Some(CommandKind::RewriteCommand)
    } else if name == "SNAPSHOT"@ {
        Some(CommandKind::SnapshotCommand)
    } else if name == "SHUTDOWN"@ {
        Some(CommandKind::ShutdownCommand)
    } else {
        None
    }
}

/// The name each command is registered under.
pub open spec fn command_name(k: CommandKind) -> Seq<char> {
    match k {
        CommandKind::SetCommand => "SET"@,
        CommandKind::GetCommand => "GET"@,
        CommandKind::DelCommand => "DEL"@,
        CommandKind::ExpireCommand => "EXPIRE"@,
        CommandKind::PingCommand => "PING"@,
        CommandKind::SgetCommand => "SGET"@,
        CommandKind::SearchCommand => "SEARCH"@,
        CommandKind::VgetCommand => "VGET"@,
        CommandKind::SimilarityCommand => "SIMILARITY"@,
        CommandKind::LpushCommand => "LPUSH"@,
        CommandKind::HsetCommand => "HSET"@,
        CommandKind::HgetCommand => "HGET"@,
        CommandKind::InfoCommand => "INFO"@,
        CommandKind::StatsCommand => "STATS"@,
        CommandKind::ExportCommand => "EXPORT"@,
        CommandKind::RewriteCommand => "REWRITE"@,
        CommandKind::SnapshotCommand => "SNAPSHOT"@,
        CommandKind::ShutdownCommand => "SHUTDOWN"@,
    }
}

/// A name finds a command only when it is that command's own registered name: `SGET` finds
/// the SGET command, `SEARCH` the SEARCH command, and so on.
pub proof fn law_name_finds_its_own_command(name: Seq<char>)
    ensures
        command_named(name) matches Some(k) ==> name == command_name(k),
{
}

/// Distinct names never find the same command.
pub proof fn law_distinct_names_distinct_commands(a: Seq<char>, b: Seq<char>)
    requires
        a != b,
        command_named(a) is Some,
    ensures
        command_named(b) != command_named(a),
{
    law_name_finds_its_own_command(a);
    law_name_finds_its_own_command(b);
}

impl CommandKind {
    /// Looks a command up by its registered name (names are matched exactly).
    pub fn from_name(name: &str) -> (r: Option<CommandKind>)
        ensures
            r == command_named(name@),
            r matches Some(k) ==> name@ == command_name(k),
    {
        proof {
            law_name_finds_its_own_command(name@);
        }
        if str_equal(name, "SET") {
            Some(CommandKind::SetCommand)
        } else if str_equal(name, "GET") {
            Some(CommandKind::GetCommand)
        } else if str_equal(name, "DEL") {
            Some(CommandKind::DelCommand)
        } else if str_equal(name, "EXPIRE") {
            Some(CommandKind::ExpireCommand)
        } else if str_equal(name, "PING") {
            Some(CommandKind::PingCommand)
        } else if str_equal(name, "SGET") {
            Some(CommandKind::SgetCommand)
        } else if str_equal(name, "SEARCH") {
            Some(CommandKind::SearchCommand)
        } else if str_equal(name, "VGET") {
            Some(CommandKind::VgetCommand)
        } else if str_equal(name, "SIMILARITY") {
            Some(CommandKind::SimilarityCommand)
        } else if str_equal(name, "LPUSH") {
            Some(CommandKind::LpushCommand)
        } else if str_equal(name, "HSET") {
            Some(CommandKind::HsetCommand)
        } else if str_equal(name, "HGET") {
            Some(CommandKind::HgetCommand)
        } else if str_equal(name, "INFO") {
            Some(CommandKind::InfoCommand)
        } else if str_equal(name, "STATS") {
            Some(CommandKind::StatsCommand)
        } else if str_equal(name, "EXPORT") {
            Some(CommandKind::ExportCommand)
        } else if str_equal(name, "REWRITE") {
            Some(CommandKind::RewriteCommand)
        } else if str_equal(name, "SNAPSHOT") {
            Some(CommandKind::SnapshotCommand)
        } else if str_equal(name, "SHUTDOWN") {
            Some(CommandKind::ShutdownCommand)
        } else {
            None
        }
    }
}

/// The command a request's first argument names: the argument is upper-cased first.
pub fn dispatch(first_arg: &str) -> (r: Option<CommandKind>)
    ensures
        r == command_named(unicode_upper(first_arg@)),
{
    let name = to_upper(first_arg);
    CommandKind::from_name(name.as_str())
}

/// The reply when a request has too few arguments: `Some(text)` below `min` arguments.
pub open spec fn arity_reply(args_len: nat, min: nat, text: Seq<char>) -> Option<Seq<char>> {
    if args_len < min {
        Some(text)
    } else {
        None
    }
}

fn arity_check(args_len: usize, min: usize, text: &str) -> (r: Option<String>)
    ensures
        r matches Some(t) ==> t@ == text@,
        r is Some <==> args_len < min,
{
    if args_len < min {
        Some(owned(text))
    } else {
        None
    }
}

/// The WRONGTYPE reply GET sends.
pub open spec fn get_wrongtype_line() -> Seq<char> {
    "-WRONGTYPE Operation against a key holding the wrong kind of value\r\n"@
}

/// GET's reply to what the shard holds under the key: the string as a bulk string while it
/// is live and unexpired, null for a missing, empty or expired key, WRONGTYPE for other kinds.
pub open spec fn get_reply(found: Option<(ValueView, Option<u64>)>, now: u64) -> Seq<char> {
    match found {
        None => null_reply(),
        Some((v, e)) => if is_expired(e, now) {
            null_reply()
        } else {
            match v {
                ValueView::Str(s) => bulk_reply(s),
                ValueView::Empty => null_reply(),
                _ => get_wrongtype_line(),
            }
        },
    }
}

/// GET of a found value whose expiry time `t` is set (non-zero) and not after `now` answers
/// with the null bulk string, whatever the value; a string that has not expired (no time, time
/// zero, or a time after `now`) is answered with its bulk reply.
pub proof fn law_get_reply_honours_expiry(v: ValueView, exp: Option<u64>, now: u64)
    ensures
        exp matches Some(t) && t != 0 && t <= now ==> get_reply(Some((v, exp)), now) == "$-1\r\n"@,
        (exp is None || exp == Some(0u64) || exp->0 > now) && v is Str ==> get_reply(
            Some((v, exp)),
            now,
        ) == "$"@ + decimal(crate::resp::byte_len(v->Str_0)) + "\r\n"@ + v->Str_0 + "\r\n"@,
{
}

/// The `GET key` command.
pub struct GetCommand;

impl GetCommand {
    /// GET needs a key.
    pub fn arity_error(args_len: usize) -> (r: Option<String>)
        ensures
            r matches Some(t) ==> t@ == "-ERR missing key for 'get' command\r\n"@,
            r is Some <==> args_len < 2,
    {
        arity_check(args_len, 2, "-ERR missing key for 'get' command\r\n")
    }

    /// The reply to what the shard returned, judged at time `now`.
    pub fn reply(found: &Option<(DbValue, Option<u64>)>, now: u64) -> (r: String)
        ensures
            r@ == get_reply(
                match found {
                    Some((v, e)) => Some((v@, *e)),
                    None => None,
                },
                now,
            ),
            found matches Some((_, Some(t))) && t != 0 && t <= now ==> r@ == "$-1\r\n"@,
    {
        proof {
            if let Some((v, e)) = found {
                law_get_reply_honours_expiry(v@, *e, now);
            }
        }
        match found {
            None => null_bulk(),
            Some((v, e)) => {
                let expired = match e {
                    Some(t) => *t != 0 && *t <= now,
                    None => false,
                };
                if expired {
                    null_bulk()
                } else {
                    match v {
                        DbValue::String(s) => bulk(s.as_str()),
                        DbValue::Empty => null_bulk(),
                        _ => owned("-WRONGTYPE Operation against a key holding the wrong kind of value\r\n"),
                    }
                }
            },
        }
    }
}

/// The seconds of an `EX seconds` option of SET: with five or more arguments, when the fourth
/// is `EX` after upper-casing and the fifth reads as a number.
pub open spec fn set_ex_seconds(args: Seq<Seq<char>>) -> Option<u64> {
    if args.len() >= 5 && unicode_upper(args[3]) == "EX"@ {
        match parse_unsigned(args[4]) {
            Some(n) => if n <= u64::MAX {
                Some(n as u64)
            } else {
                None
            },
            None => None,
        }
    } else {
        None
    }
}

/// Largest second count a system time can hold on Unix.
pub open spec fn max_system_secs() -> int {
    i64::MAX as int
}

/// The `SET key value [EX seconds]` command.
pub struct SetCommand;

impl SetCommand {
    /// SET needs a key and a value.
    pub fn arity_error(args_len: usize) -> (r: Option<String>)
        ensures
            r matches Some(t) ==> t@ == "-ERR wrong number of arguments for 'set' command\r\n"@,
            r is Some <==> args_len < 3,
    {
        arity_check(args_len, 3, "-ERR wrong number of arguments for 'set' command\r\n")
    }

    /// The seconds of the `EX` option, if given and readable.
    pub fn ex_seconds(args: &Vec<String>) -> (r: Option<u64>)
        ensures
            r == set_ex_seconds(crate::text::strings_view(args@)),
    {
        if args.len() >= 5 {
            let opt = to_upper(args[3].as_str());
            if str_equal(opt.as_str(), "EX") {
                return parse_u64(args[4].as_str());
            }
        }
        None
    }

    /// The expiry time `secs` seconds after `now` (both in seconds since the epoch); the
    /// server keeps it as a system time, which cannot go past `i64::MAX` seconds.
    pub fn expiry_at(now: u64, secs: u64) -> (r: u64)
        requires
            now + secs <= max_system_secs(),
        ensures
            r == now + secs,
    {
        now + secs
    }

    /// The reply once the value is stored.
    pub fn reply() -> (r: String)
        ensures
            r@ == "+OK\r\n"@,
    {
        owned("+OK\r\n")
    }
}

/// The `DEL key...` command.
pub struct DelCommand;

impl DelCommand {
    /// DEL needs at least one key.
    pub fn arity_error(args_len: usize) -> (r: Option<String>)
        ensures
            r matches Some(t) ==> t@ == "-ERR wrong number of arguments for 'del' command\r\n"@,
            r is Some <==> args_len < 2,
    {
        arity_check(args_len, 2, "-ERR wrong number of arguments for 'del' command\r\n")
    }

    /// The number of keys for which a removal was carried out.
    pub fn reply(deleted: u64) -> (r: String)
        ensures
            r@ == integer_reply(deleted as nat),
    {
        integer(deleted)
    }
}

/// What EXPIRE makes of its seconds argument: the number, or the error reply.
pub open spec fn expire_seconds_result(arg: Seq<char>) -> Result<u64, Seq<char>> {
    match parse_unsigned(arg) {
        Some(n) => if n <= u64::MAX {
            Ok(n as u64)
        } else {
            Err("-ERR value is not an integer or out of range\r\n"@)
        },
        None => Err("-ERR value is not an integer or out of range\r\n"@),
    }
}

/// The `EXPIRE key seconds` command.
pub struct ExpireCommand;

impl ExpireCommand {
    /// EXPIRE needs a key and a number of seconds.
    pub fn arity_error(args_len: usize) -> (r: Option<String>)
        ensures
            r matches Some(t) ==> t@ == "-ERR wrong number of arguments for 'expire' command\r\n"@,
            r is Some <==> args_len < 3,
    {
        arity_check(args_len, 3, "-ERR wrong number of arguments for 'expire' command\r\n")
    }

    /// Reads the seconds argument.
    pub fn seconds(arg: &str) -> (r: Result<u64, String>)
        ensures
            match (r, expire_seconds_result(arg@)) {
                (Ok(a), Ok(b)) => a == b,
                (Err(e), Err(f)) => e@ == f,
                _ => false,
            },
    {
        match parse_u64(arg) {
            Some(n) => Ok(n),
            None => Err(owned("-ERR value is not an integer or out of range\r\n")),
        }
    }

    /// The expiry time `secs` seconds after `now`, wrapping around past `u64::MAX` as the
    /// server's release build adds.
    pub fn expire_at(now: u64, secs: u64) -> (r: u64)
        ensures
            r == (if now + secs <= u64::MAX {
                now + secs
            } else {
                now + secs - (u64::MAX + 1)
            }),
    {
        if secs <= u64::MAX - now {
            now + secs
        } else {
            secs - (u64::MAX - now) - 1
        }
    }

    /// `:1` when the key was live and got the expiry time, `:0` otherwise.
    pub fn reply(found: bool) -> (r: String)
        ensures
            r@ == if found {
                ":1\r\n"@
            } else {
                ":0\r\n"@
            },
    {
        if found {
            owned(":1\r\n")
        } else {
            owned(":0\r\n")
        }
    }
}

/// HGET's reply: the value as a bulk string, null when there is none, the error otherwise.
pub open spec fn hget_reply(r: Result<Option<Seq<char>>, Seq<char>>) -> Seq<char> {
    match r {
        Ok(Some(v)) => bulk_reply(v),
        Ok(None) => null_reply(),
        Err(e) => error_reply(e),
    }
}

/// The `HGET key field` command.
pub struct HgetCommand;

impl HgetCommand {
    /// HGET needs a key and a field.
    pub fn arity_error(args_len: usize) -> (r: Option<String>)
        ensures
            r matches Some(t) ==> t@ == "-ERR wrong number of arguments for 'hget' command\r\n"@,
            r is Some <==> args_len < 3,
    {
        arity_check(args_len, 3, "-ERR wrong number of arguments for 'hget' command\r\n")
    }

    /// The reply to what the shard answered.
    pub fn reply(res: &Result<Option<String>, String>) -> (r: String)
        ensures
            r@ == hget_reply(
                match res {
                    Ok(Some(v)) => Ok(Some(v@)),
                    Ok(None) => Ok(None),
                    Err(e) => Err(e@),
                },
            ),
    {
        match res {
            Ok(Some(v)) => bulk(v.as_str()),
            Ok(None) => null_bulk(),
            Err(e) => error(e.as_str()),
        }
    }
}

/// The `HSET key field value` command.
pub struct HsetCommand;

impl HsetCommand {
    /// HSET needs a key, a field and a value.
    pub fn arity_error(args_len: usize) -> (r: Option<String>)
        ensures
            r matches Some(t) ==> t@ == "-ERR wrong number of arguments for 'hset' command\r\n"@,
            r is Some <==> args_len < 4,
    {
        arity_check(args_len, 4, "-ERR wrong number of arguments for 'hset' command\r\n")
    }

    /// `:1` for a new field, `:0` for a replaced one, the error otherwise.
    pub fn reply(res: &Result<(bool, DbValue), String>) -> (r: String)
        ensures
            r@ == match res {
                Ok((true, _)) => ":1\r\n"@,
                Ok((false, _)) => ":0\r\n"@,
                Err(e) => error_reply(e@),
            },
    {
        match res {
            Ok((is_new, _)) => if *is_new {
                owned(":1\r\n")
            } else {
                owned(":0\r\n")
            },
            Err(e) => error(e.as_str()),
        }
    }
}

/// The `LPUSH key value` command.
pub struct LpushCommand;

impl LpushCommand {
    /// LPUSH needs a key and a value.
    pub fn arity_error(args_len: usize) -> (r: Option<String>)
        ensures
            r matches Some(t) ==> t@ == "-ERR wrong number of arguments for 'lpush' command\r\n"@,
            r is Some <==> args_len < 3,
    {
        arity_check(args_len, 3, "-ERR wrong number of arguments for 'lpush' command\r\n")
    }

    /// The new length of the list, or the error.
    pub fn reply(res: &Result<(usize, DbValue), String>) -> (r: String)
        ensures
            r@ == match res {
                Ok((n, _)) => integer_reply(*n as nat),
                Err(e) => error_reply(e@),
            },
    {
        match res {
            Ok((n, _)) => integer(*n as u64),
            Err(e) => error(e.as_str()),
        }
    }
}

/// The `PING` command.
pub struct PingCommand;

impl PingCommand {
    pub fn reply() -> (r: String)
        ensures
            r@ == "+PONG\r\n"@,
    {
        owned("+PONG\r\n")
    }
}

/// What SEARCH reads as its result count: the third argument as a number, else 5.
pub open spec fn search_k(args: Seq<Seq<char>>) -> nat {
    if args.len() >= 3 {
        match parse_unsigned(args[2]) {
            Some(n) => if n <= usize::MAX {
                n
            } else {
                5
            },
            None => 5,
        }
    } else {
        5
    }
}

/// The `SEARCH query [k] [threshold]` command.
pub struct SearchCommand;

impl SearchCommand {
    /// SEARCH needs a query.
    pub fn arity_error(args_len: usize) -> (r: Option<String>)
        ensures
            r matches Some(t) ==> t@ == "-ERR missing query string for 'search'\r\n"@,
            r is Some <==> args_len < 2,
    {
        arity_check(args_len, 2, "-ERR missing query string for 'search'\r\n")
    }

    /// How many results to return.
    pub fn k(args: &Vec<String>) -> (r: usize)
        ensures
            r == search_k(crate::text::strings_view(args@)),
    {
        if args.len() >= 3 {
            match parse_usize(args[2].as_str()) {
                Some(n) => n,
                None => 5,
            }
        } else {
            5
        }
    }

    /// The array header announcing `n` results.
    pub fn header(n: u64) -> (r: String)
        ensures
            r@ == "*"@ + decimal(n as nat) + "\r\n"@,
    {
        let r = concat(owned("*"), crate::text::u64_to_string(n).as_str());
        concat(r, "\r\n")
    }

    /// The results of a search, from the candidates that the shards found (each with the order
    /// key of its score): ranked best first, those whose score reaches the threshold, at most
    /// `k` of them.
    pub fn top(cands: &Vec<(u64, String)>, threshold: u64, k: usize) -> (r: Vec<(u64, String)>)
        ensures
            r@ == first_reaching(ranked(cands@), threshold, k as nat),
    {
        let all = rank(cands);
        take_reaching(&all, threshold, k)
    }
}

/// The `SGET query [threshold]` command.
pub struct SgetCommand;

impl SgetCommand {
    /// SGET needs a query.
    pub fn arity_error(args_len: usize) -> (r: Option<String>)
        ensures
            r matches Some(t) ==> t@ == "-ERR missing query string\r\n"@,
            r is Some <==> args_len < 2,
    {
        arity_check(args_len, 2, "-ERR missing query string\r\n")
    }

    /// The key SGET answers with, from each shard's best candidate (with the order key of its
    /// score): the first best of them, if its score reaches the threshold.
    pub fn pick(firsts: &Vec<Option<(u64, String)>>, threshold: u64) -> (r: Option<String>)
        ensures
            r is Some <==> (first_best(firsts@) matches Some(c) && c.0 >= threshold),
            r matches Some(key) ==> (first_best(firsts@) matches Some(c) && key@ == c.1@),
    {
        match best_of(firsts) {
            Some(c) => if c.0 >= threshold {
                Some(c.1)
            } else {
                None
            },
            None => None,
        }
    }

    /// Whether a value with this expiry time is still to be served at time `now`.
    pub fn live(expiry: Option<u64>, now: u64) -> (r: bool)
        ensures
            r == !is_expired(expiry, now),
    {
        match expiry {
            Some(exp) => exp == 0 || exp > now,
            None => true,
        }
    }
}

/// The `VGET key` command.
pub struct VgetCommand;

impl VgetCommand {
    /// VGET needs a key.
    pub fn arity_error(args_len: usize) -> (r: Option<String>)
        ensures
            r matches Some(t) ==> t@ == "-ERR missing key for 'vget' command\r\n"@,
            r is Some <==> args_len < 2,
    {
        arity_check(args_len, 2, "-ERR missing key for 'vget' command\r\n")
    }
}

/// The `SIMILARITY key1 key2` command.
pub struct SimilarityCommand;

impl SimilarityCommand {
    /// SIMILARITY needs two keys.
    pub fn arity_error(args_len: usize) -> (r: Option<String>)
        ensures
            r matches Some(t) ==> t@ == "-ERR missing keys for 'similarity' command\r\n"@,
            r is Some <==> args_len < 3,
    {
        arity_check(args_len, 3, "-ERR missing keys for 'similarity' command\r\n")
    }
}

/// The `INFO` command.
pub struct InfoCommand;

/// The INFO line describing the shard at position `i` of the replies.
pub open spec fn shard_line_text(i: nat, keys: nat, slots: nat, free: nat) -> Seq<char> {
    "shard_"@ + decimal(i) + ":keys="@ + decimal(keys) + ",slots="@ + decimal(slots) + ",free="@
        + decimal(free) + "\r\n"@
}

/// The totals INFO reports: keys, allocated slots, free slots and vector buffer bytes (four
/// per component) over the shards that answered, with a line per answering shard.
pub struct InfoTotals {
    pub keys: u64,
    pub slots: u64,
    pub free: u64,
    pub vector_bytes: u64,
    pub lines: String,
}

/// The sums of keys, slots, free slots and vector bytes over the shards that answered (`None`
/// stands for a shard that did not).
pub open spec fn info_sums(s: Seq<Option<Shard>>) -> (nat, nat, nat, nat)
    decreases s.len(),
{
    if s.len() == 0 {
        (0, 0, 0, 0)
    } else {
        let t = info_sums(s.drop_last());
        match s.last() {
            Some(x) => (
                t.0 + x.key_to_idx@.len(),
                t.1 + x.values@.len(),
                t.2 + x.free_slots@.len(),
                t.3 + x.vectors@.len() * 4,
            ),
            None => t,
        }
    }
}

/// The lines of the shards that answered, each with its position among the replies.
pub open spec fn info_lines(s: Seq<Option<Shard>>) -> Seq<char>
    decreases s.len(),
{
    if s.len() == 0 {
        Seq::empty()
    } else {
        info_lines(s.drop_last()) + match s.last() {
            Some(x) => shard_line_text(
                (s.len() - 1) as nat,
                x.key_to_idx@.len(),
                x.values@.len(),
                x.free_slots@.len(),
            ),
            None => Seq::empty(),
        }
    }
}

proof fn lemma_info_sums_grow(s: Seq<Option<Shard>>, i: int)
    requires
        0 <= i <= s.len(),
    ensures
        info_sums(s.take(i)).0 <= info_sums(s).0,
        info_sums(s.take(i)).1 <= info_sums(s).1,
        info_sums(s.take(i)).2 <= info_sums(s).2,
        info_sums(s.take(i)).3 <= info_sums(s).3,
    decreases s.len() - i,
{
    if i < s.len() {
        assert(s.drop_last().take(i) =~= s.take(i));
        lemma_info_sums_grow(s.drop_last(), i);
    } else {
        assert(s.take(i) =~= s);
    }
}

impl InfoCommand {
    /// Adds up what the shards answered: the replies come in shard order, `None` for a shard
    /// that did not answer. The sums must fit in a `u64`.
    pub fn totals(shards: &Vec<Option<Shard>>) -> (r: InfoTotals)
        requires
            info_sums(shards@).0 <= u64::MAX,
            info_sums(shards@).1 <= u64::MAX,
            info_sums(shards@).2 <= u64::MAX,
            info_sums(shards@).3 <= u64::MAX,
        ensures
            (r.keys as nat, r.slots as nat, r.free as nat, r.vector_bytes as nat) == info_sums(shards@),
            r.lines@ == info_lines(shards@),
    {
        let mut r = InfoTotals { keys: 0, slots: 0, free: 0, vector_bytes: 0, lines: String::new() };
        let mut i: usize = 0;
        assert(shards@.take(0) =~= Seq::<Option<Shard>>::empty());
        while i < shards.len()
            invariant
                i <= shards.len(),
                (r.keys as nat, r.slots as nat, r.free as nat, r.vector_bytes as nat) == info_sums(
                    shards@.take(i as int),
                ),
                r.lines@ == info_lines(shards@.take(i as int)),
                info_sums(shards@).0 <= u64::MAX,
                info_sums(shards@).1 <= u64::MAX,
                info_sums(shards@).2 <= u64::MAX,
                info_sums(shards@).3 <= u64::MAX,
            decreases shards.len() - i,
        {
            let ghost t = shards@.take(i + 1);
            assert(t.drop_last() =~= shards@.take(i as int));
            assert(t.last() == shards@[i as int]);
            proof {
                lemma_info_sums_grow(shards@, i + 1);
            }
            match &shards[i] {
                Some(x) => {
                    let keys = x.key_to_idx.len() as u64;
                    let slots = x.values.len() as u64;
                    let free = x.free_slots.len() as u64;
                    let vl = x.vectors.len() as u64;
                    r.keys = r.keys + keys;
                    r.slots = r.slots + slots;
                    r.free = r.free + free;
                    r.vector_bytes = r.vector_bytes + vl * 4;
                    let line = InfoCommand::shard_line(i as u64, keys, slots, free);
                    let old_lines = r.lines;
                    r.lines = concat(old_lines, line.as_str());
                },
                None => {},
            }
            i += 1;
        }
        assert(shards@.take(shards.len() as int) =~= shards@);
        r
    }

    /// The line describing shard `i`.
    pub fn shard_line(i: u64, keys: u64, slots: u64, free: u64) -> (r: String)
        ensures
            r@ == shard_line_text(i as nat, keys as nat, slots as nat, free as nat),
    {
        let r = concat(owned("shard_"), crate::text::u64_to_string(i).as_str());
        let r = concat(r, ":keys=");
        let r = concat(r, crate::text::u64_to_string(keys).as_str());
        let r = concat(r, ",slots=");
        let r = concat(r, crate::text::u64_to_string(slots).as_str());
        let r = concat(r, ",free=");
        let r = concat(r, crate::text::u64_to_string(free).as_str());
        concat(r, "\r\n")
    }

    /// The INFO report: the process id, the totals over the shards, the slot density (already
    /// written with two decimals), whether the semantic engine is up, and the lines of the
    /// shards.
    pub fn report(
        pid: u64,
        keys: u64,
        slots: u64,
        free: u64,
        vector_bytes: u64,
        density: &str,
        engine_online: bool,
        shard_lines: &str,
    ) -> (r: String)
        ensures
            r@ == "# System (Shared-Nothing/Async)\r\n"@ + "process_id:"@ + decimal(pid as nat) + "\r\n"@
                + "\r\n# Memory & Buffers\r\n"@ + "total_keys:"@ + decimal(keys as nat) + "\r\n"@
                + "total_allocated_slots:"@ + decimal(slots as nat) + "\r\n"@
                + "total_free_reusable_slots:"@ + decimal(free as nat) + "\r\n"@
                + "vector_buffer_memory_bytes:"@ + decimal(vector_bytes as nat) + "\r\n"@
                + "memory_density_percent:"@ + density@ + "%\r\n"@ + "\r\n# Engine Status\r\n"@
                + "semantic_engine_status:"@ + (if engine_online {
                "online"@
            } else {
                "booting/offline"@
            }) + "\r\n"@ + "\r\n# Shard Distribution\r\n"@ + shard_lines@,
    {
        let r = concat(owned("# System (Shared-Nothing/Async)\r\n"), "process_id:");
        let r = concat(r, crate::text::u64_to_string(pid).as_str());
        let r = concat(r, "\r\n");
        let r = concat(r, "\r\n# Memory & Buffers\r\n");
        let r = concat(r, "total_keys:");
        let r = concat(r, crate::text::u64_to_string(keys).as_str());
        let r = concat(r, "\r\n");
        let r = concat(r, "total_allocated_slots:");
        let r = concat(r, crate::text::u64_to_string(slots).as_str());
        let r = concat(r, "\r\n");
        let r = concat(r, "total_free_reusable_slots:");
        let r = concat(r, crate::text::u64_to_string(free).as_str());
        let r = concat(r, "\r\n");
        let r = concat(r, "vector_buffer_memory_bytes:");
        let r = concat(r, crate::text::u64_to_string(vector_bytes).as_str());
        let r = concat(r, "\r\n");
        let r = concat(r, "memory_density_percent:");
        let r = concat(r, density);
        let r = concat(r, "%\r\n");
        let r = concat(r, "\r\n# Engine Status\r\n");
        let r = concat(r, "semantic_engine_status:");
        let r = if engine_online {
            concat(r, "online")
        } else {
            concat(r, "booting/offline")
        };
        let r = concat(r, "\r\n");
        let r = concat(r, "\r\n# Shard Distribution\r\n");
        concat(r, shard_lines)
    }
}

/// The `STATS` command.
pub struct StatsCommand;

impl StatsCommand {
    /// The STATS report: the count of each kind of value, how many keys expire within the
    /// hour, how many vectors are active, and a sample of their centroid (already written out).
    pub fn report(
        strings: u64,
        lists: u64,
        sets: u64,
        hashes: u64,
        expiring_soon: u64,
        active: u64,
        centroid_sample: &str,
    ) -> (r: String)
        ensures
            r@ == "# Data Structure Distribution (Shared-Nothing)\r\n"@ + "type_string:"@ + decimal(
                strings as nat,
            ) + "\r\n"@ + "type_list:"@ + decimal(lists as nat) + "\r\n"@ + "type_set:"@ + decimal(
                sets as nat,
            ) + "\r\n"@ + "type_hash:"@ + decimal(hashes as nat) + "\r\n"@
                + "\r\n# Lifecycle Forecast\r\n"@ + "expiring_within_1h:"@ + decimal(
                expiring_soon as nat,
            ) + "\r\n"@ + "\r\n# Global Semantic Centroid\r\n"@ + "total_active_vectors:"@
                + decimal(active as nat) + "\r\n"@ + "semantic_centroid_sample:["@ + centroid_sample@
                + "]\r\n"@,
    {
        let r = concat(owned("# Data Structure Distribution (Shared-Nothing)\r\n"), "type_string:");
        let r = concat(r, crate::text::u64_to_string(strings).as_str());
        let r = concat(r, "\r\n");
        let r = concat(r, "type_list:");
        let r = concat(r, crate::text::u64_to_string(lists).as_str());
        let r = concat(r, "\r\n");
        let r = concat(r, "type_set:");
        let r = concat(r, crate::text::u64_to_string(sets).as_str());
        let r = concat(r, "\r\n");
        let r = concat(r, "type_hash:");
        let r = concat(r, crate::text::u64_to_string(hashes).as_str());
        let r = concat(r, "\r\n");
        let r = concat(r, "\r\n# Lifecycle Forecast\r\n");
        let r = concat(r, "expiring_within_1h:");
        let r = concat(r, crate::text::u64_to_string(expiring_soon).as_str());
        let r = concat(r, "\r\n");
        let r = concat(r, "\r\n# Global Semantic Centroid\r\n");
        let r = concat(r, "total_active_vectors:");
        let r = concat(r, crate::text::u64_to_string(active).as_str());
        let r = concat(r, "\r\n");
        let r = concat(r, "semantic_centroid_sample:[");
        let r = concat(r, centroid_sample);
        concat(r, "]\r\n")
    }
}

/// The `EXPORT` command.
pub struct ExportCommand;

impl ExportCommand {
    /// The closing line, with the number of rows sent.
    pub fn complete_line(n: u64) -> (r: String)
        ensures
            r@ == "# EXPORT_COMPLETE: "@ + decimal(n as nat) + "\n"@,
    {
        let r = concat(owned("# EXPORT_COMPLETE: "), crate::text::u64_to_string(n).as_str());
        concat(r, "\n")
    }
}

/// The `REWRITE` command.
pub struct RewriteCommand;

/// The `SNAPSHOT` command.
pub struct SnapshotCommand;

/// The `SHUTDOWN` command.
pub struct ShutdownCommand;

} // verus!
