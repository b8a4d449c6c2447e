//! The append-only log: the text of each record, and how a record line is read back.
use crate::text::{
    decimal, join, join_strs, parse_u64, parse_unsigned, split_on, split_str, split_whitespace_str,
    str_equal, strings_view, to_upper, trim, trim_str, u64_to_string, unicode_upper, words,
    ascii_upper_char, is_space, lemma_decimal_parses_back, lemma_split_on_concat, lemma_split_on_no_sep,
    trim_end, trim_start,
};
use vstd::utf8::is_ascii_chars;
use vstd::prelude::*;

verus! {

/// The log's time stamp for an optional expiry time: the time itself, or `0` for none.
pub open spec fn stamp(exp: Option<u64>) -> u64 {
    match exp {
        Some(t) => t,
        None => 0,
    }
}

/// The record of a SET: `SET`, key, value text, expiry stamp and vector text, separated by
/// tabs and ended by a newline.
pub open spec fn set_record(key: Seq<char>, value_text: Seq<char>, exp: Option<u64>, vector_text: Seq<char>) -> Seq<char> {
    "SET\t"@ + key + "\t"@ + value_text + "\t"@ + decimal(stamp(exp) as nat) + "\t"@ + vector_text
        + "\n"@
}

/// The record of a DEL.
pub open spec fn del_record(key: Seq<char>) -> Seq<char> {
    "DEL\t"@ + key + "\n"@
}

/// The record of an EXPIRE.
pub open spec fn expire_record(key: Seq<char>, at: u64) -> Seq<char> {
    "EXPIRE\t"@ + key + "\t"@ + decimal(at as nat) + "\n"@
}

fn concat(a: String, b: &str) -> (r: String)
    ensures
        r@ == a@ + b@,
{
    let mut a = a;
    a.append(b);
    a
}

/// The log line for a SET (`value_text` is the value in JSON, `vector_text` the vector's
/// components written out and separated by commas).
pub fn set_line(key: &str, value_text: &str, exp: Option<u64>, vector_text: &str) -> (r: String)
    ensures
        r@ == set_record(key@, value_text@, exp, vector_text@),
{
    let ts = match exp {
        Some(t) => t,
        None => 0,
    };
    let ts_text = u64_to_string(ts);
    let r = concat("SET\t".to_owned(), key);
    let r = concat(r, "\t");
    let r = concat(r, value_text);
    let r = concat(r, "\t");
    let r = concat(r, ts_text.as_str());
    let r = concat(r, "\t");
    let r = concat(r, vector_text);
    concat(r, "\n")
}

/// The log line for a DEL.
pub fn del_line(key: &str) -> (r: String)
    ensures
        r@ == del_record(key@),
{
    let r = concat("DEL\t".to_owned(), key);
    concat(r, "\n")
}

/// The log line for an EXPIRE.
pub fn expire_line(key: &str, at: u64) -> (r: String)
    ensures
        r@ == expire_record(key@, at),
{
    let t = u64_to_string(at);
    let r = concat("EXPIRE\t".to_owned(), key);
    let r = concat(r, "\t");
    let r = concat(r, t.as_str());
    concat(r, "\n")
}

/// The fields of a log line: the trimmed line split at tabs, or at runs of white space when
/// it has no tab.
pub open spec fn record_fields(line: Seq<char>) -> Seq<Seq<char>> {
    let t = trim(line);
    let p = split_on(t, '\t');
    if p.len() < 2 {
        words(t)
    } else {
        p
    }
}

/// Whether a log line is in the tab-separated format of current records (old-format records
/// separate their fields by spaces).
pub open spec fn record_tabbed(line: Seq<char>) -> bool {
    split_on(trim(line), '\t').len() >= 2
}

/// Splits a log line into its fields.
pub fn aof_fields(line: &str) -> (r: Vec<String>)
    ensures
        strings_view(r@) == record_fields(line@),
{
    let t = trim_str(line);
    let p = split_str(t.as_str(), '\t');
    if p.len() < 2 {
        split_whitespace_str(t.as_str())
    } else {
        p
    }
}

/// A log record, as replay reads it.
pub enum AofEntry {
    /// Store `value_text` (JSON of the value) with an expiry time and a vector (`vector_text`).
    Store { key: String, value_text: String, expiry: Option<u64>, vector_text: String },
    /// Remove a key.
    Delete { key: String },
    /// A record in the old format: the value is plain text and its vector must be computed.
    LegacyStore { key: String, text: String },
    /// Set the expiry time of a key.
    ExpireAt { key: String, at: u64 },
    /// Nothing to replay.
    Skip,
}

/// The expiry time a stamp field stands for: its number when it reads as one and is not
/// zero, none otherwise.
pub open spec fn stamp_expiry(field: Seq<char>) -> Option<u64> {
    match parse_unsigned(field) {
        Some(n) => if 0 < n <= u64::MAX {
            Some(n as u64)
        } else {
            None
        },
        None => None,
    }
}

/// Replay reads no record from a line with exactly one field: it fails there.
pub open spec fn record_readable(fields: Seq<Seq<char>>) -> bool {
    fields.len() != 1
}

/// The expiry time an EXPIRE record's time field stands for, when it reads as a `u64`.
pub open spec fn expire_field(field: Seq<char>) -> Option<u64> {
    match parse_unsigned(field) {
        Some(n) => if n <= u64::MAX {
            Some(n as u64)
        } else {
            None
        },
        None => None,
    }
}

/// What replay makes of the fields of a line whose command, upper-cased, is `cmd`; `tabbed`
/// says whether the line is tab-separated. A tab-separated `SET` with five or more fields
/// stores a value; `DEL` removes the key; `EXPIRE` with a readable time sets the key's expiry
/// time; any other `SET` with three or more fields is an old-format record whose value is the
/// remaining fields joined by spaces.
pub open spec fn entry_for(fields: Seq<Seq<char>>, cmd: Seq<char>, tabbed: bool, e: AofEntry) -> bool {
    if cmd == "SET"@ && tabbed && fields.len() >= 5 {
        e matches AofEntry::Store { key, value_text, expiry, vector_text } && key@ == fields[1]
            && value_text@ == fields[2] && expiry == stamp_expiry(fields[3]) && vector_text@
            == fields[4]
    } else if cmd == "DEL"@ {
        e matches AofEntry::Delete { key } && key@ == fields[1]
    } else if cmd == "EXPIRE"@ && fields.len() >= 3 && expire_field(fields[2]) is Some {
        e matches AofEntry::ExpireAt { key, at } && key@ == fields[1] && at == expire_field(
            fields[2],
        )->0
    } else if cmd == "SET"@ && fields.len() >= 3 {
        e matches AofEntry::LegacyStore { key, text } && key@ == fields[1] && text@ == join(
            fields.subrange(2, fields.len() as int),
            " "@,
        )
    } else {
        e is Skip
    }
}

/// What replay makes of the fields of a line: nothing from an empty line, otherwise what
/// [`entry_for`] says with the command compared after Unicode upper-casing.
pub open spec fn entry_matches(fields: Seq<Seq<char>>, tabbed: bool, e: AofEntry) -> bool {
    if fields.len() == 0 {
        e is Skip
    } else {
        entry_for(fields, unicode_upper(fields[0]), tabbed, e)
    }
}

/// Reads one record from the fields of a log line.
pub fn classify_fields(fields: &Vec<String>, tabbed: bool) -> (e: AofEntry)
    requires
        record_readable(strings_view(fields@)),
    ensures
        entry_matches(strings_view(fields@), tabbed, e),
        fields.len() > 0 && is_ascii_chars(fields@[0]@) ==> entry_for(
            strings_view(fields@),
            fields@[0]@.map_values(|c: char| ascii_upper_char(c)),
            tabbed,
            e,
        ),
{
    if fields.len() == 0 {
        return AofEntry::Skip;
    }
    let cmd = to_upper(fields[0].as_str());
    let is_set = str_equal(cmd.as_str(), "SET");
    let is_del = str_equal(cmd.as_str(), "DEL");
    let is_expire = str_equal(cmd.as_str(), "EXPIRE");
    let at = if is_expire && fields.len() >= 3 {
        parse_u64(fields[2].as_str())
    } else {
        None
    };
    if is_set && tabbed && fields.len() >= 5 {
        let expiry = match parse_u64(fields[3].as_str()) {
            Some(n) => if n > 0 {
                Some(n)
            } else {
                None
            },
            None => None,
        };
        AofEntry::Store {
            key: fields[1].clone(),
            value_text: fields[2].clone(),
            expiry,
            vector_text: fields[4].clone(),
        }
    } else if is_del {
        AofEntry::Delete { key: fields[1].clone() }
    } else if at.is_some() {
        AofEntry::ExpireAt { key: fields[1].clone(), at: at.unwrap() }
    } else if is_set && fields.len() >= 3 {
        let rest = crate::text::slice_strings(fields, 2, fields.len());
        let text = join_strs(rest.as_slice(), " ");
        proof {
            assert(strings_view(rest@) =~= strings_view(fields@).subrange(2, fields@.len() as int));
        }
        AofEntry::LegacyStore { key: fields[1].clone(), text }
    } else {
        AofEntry::Skip
    }
}

/// What replay reads from a log line, as far as it is determined: [`entry_matches`] on the
/// line's fields, and, where the command is ASCII, [`entry_for`] with its ASCII upper case.
pub open spec fn replayed(line: Seq<char>, e: AofEntry) -> bool {
    let f = record_fields(line);
    &&& entry_matches(f, record_tabbed(line), e)
    &&& (f.len() > 0 && is_ascii_chars(f[0]) ==> entry_for(
        f,
        f[0].map_values(|c: char| ascii_upper_char(c)),
        record_tabbed(line),
        e,
    ))
}

/// Reads the record of one log line.
pub fn read_record(line: &str) -> (e: AofEntry)
    requires
        record_readable(record_fields(line@)),
    ensures
        replayed(line@, e),
{
    let t = trim_str(line);
    let p = split_str(t.as_str(), '\t');
    let tabbed = p.len() >= 2;
    let fields = if tabbed {
        p
    } else {
        split_whitespace_str(t.as_str())
    };
    classify_fields(&fields, tabbed)
}

proof fn lemma_trim_line(x: Seq<char>)
    requires
        x.len() > 0,
        !is_space(x[0]),
        !is_space(x.last()),
    ensures
        trim(x + "\n"@) == x,
{
    reveal_strlit("\n");
    let l = x + "\n"@;
    assert(l[0] == x[0]);
    assert(trim_start(l) == l);
    assert(l.last() == '\n');
    assert(l.drop_last() =~= x);
    assert(trim_end(x) == x);
}

proof fn lemma_tab_free_digits(n: nat)
    ensures
        !decimal(n).contains('\t'),
        decimal(n).len() > 0,
        !is_space(decimal(n).last()),
{
    lemma_decimal_parses_back(n);
    assert(decimal(n)[decimal(n).len() - 1] == decimal(n).last());
}

/// The fields of a SET record are the command, the key, the value text, the expiry stamp
/// and the vector text, when none of the texts holds a tab and the vector text does not end
/// in white space.
pub proof fn lemma_set_record_fields(
    key: Seq<char>,
    value_text: Seq<char>,
    exp: Option<u64>,
    vector_text: Seq<char>,
)
    requires
        !key.contains('\t'),
        !value_text.contains('\t'),
        !vector_text.contains('\t'),
        vector_text.len() > 0,
        !is_space(vector_text.last()),
    ensures
        record_tabbed(set_record(key, value_text, exp, vector_text)),
        record_fields(set_record(key, value_text, exp, vector_text)) == seq![
            "SET"@,
            key,
            value_text,
            decimal(stamp(exp) as nat),
            vector_text,
        ],
{
    reveal_strlit("SET\t");
    reveal_strlit("SET");
    reveal_strlit("\t");
    let d = decimal(stamp(exp) as nat);
    lemma_tab_free_digits(stamp(exp) as nat);
    let tab = seq!['\t'];
    let x4 = d + tab + vector_text;
    let x3 = value_text + tab + x4;
    let x2 = key + tab + x3;
    let x = "SET"@ + tab + x2;
    assert(set_record(key, value_text, exp, vector_text) =~= x + "\n"@);
    assert(x[0] == 'S');
    assert(x.last() == vector_text.last());
    lemma_trim_line(x);
    assert(!"SET"@.contains('\t')) by {
        if "SET"@.contains('\t') {
            let k = choose|k: int| 0 <= k < 3 && "SET"@[k] == '\t';
        }
    }
    lemma_split_on_concat(d, vector_text, '\t');
    lemma_split_on_concat(value_text, x4, '\t');
    lemma_split_on_concat(key, x3, '\t');
    lemma_split_on_concat("SET"@, x2, '\t');
    lemma_split_on_no_sep("SET"@, '\t');
    lemma_split_on_no_sep(key, '\t');
    lemma_split_on_no_sep(value_text, '\t');
    lemma_split_on_no_sep(d, '\t');
    lemma_split_on_no_sep(vector_text, '\t');
    assert(split_on(x, '\t') =~= seq!["SET"@, key, value_text, d, vector_text]);
}

/// The expiry that replay reads from a stamp written for `exp`: `exp` itself, except that a
/// zero time reads as none.
pub proof fn lemma_stamp_reads_back(exp: Option<u64>)
    ensures
        stamp_expiry(decimal(stamp(exp) as nat)) == (if exp == Some(0u64) {
            None
        } else {
            exp
        }),
{
    lemma_decimal_parses_back(stamp(exp) as nat);
}

/// Replaying the record of a SET stores the same key, value text, expiry (a zero time reads
/// as none) and vector text.
pub proof fn lemma_set_record_replays(
    key: Seq<char>,
    value_text: Seq<char>,
    exp: Option<u64>,
    vector_text: Seq<char>,
    e: AofEntry,
)
    requires
        !key.contains('\t'),
        !value_text.contains('\t'),
        !vector_text.contains('\t'),
        vector_text.len() > 0,
        !is_space(vector_text.last()),
        replayed(set_record(key, value_text, exp, vector_text), e),
    ensures
        e matches AofEntry::Store { key: k, value_text: v, expiry, vector_text: t } && k@ == key
            && v@ == value_text && t@ == vector_text && expiry == (if exp == Some(0u64) {
            None
        } else {
            exp
        }),
{
    reveal_strlit("SET");
    lemma_set_record_fields(key, value_text, exp, vector_text);
    lemma_stamp_reads_back(exp);
    let f = record_fields(set_record(key, value_text, exp, vector_text));
    assert(f[0] == "SET"@);
    assert(is_ascii_chars("SET"@));
    assert("SET"@.map_values(|c: char| ascii_upper_char(c)) =~= "SET"@);
}

/// The fields of a DEL record are the command and the key, when the key holds no tab, is
/// not empty and does not end in white space.
pub proof fn lemma_del_record_fields(key: Seq<char>)
    requires
        !key.contains('\t'),
        key.len() > 0,
        !is_space(key.last()),
    ensures
        record_tabbed(del_record(key)),
        record_fields(del_record(key)) == seq!["DEL"@, key],
{
    reveal_strlit("DEL\t");
    reveal_strlit("DEL");
    reveal_strlit("\n");
    let tab = seq!['\t'];
    let x = "DEL"@ + tab + key;
    assert(del_record(key) =~= x + "\n"@);
    assert(x[0] == 'D');
    assert(x.last() == key.last());
    lemma_trim_line(x);
    assert(!"DEL"@.contains('\t')) by {
        if "DEL"@.contains('\t') {
            let k = choose|k: int| 0 <= k < 3 && "DEL"@[k] == '\t';
        }
    }
    lemma_split_on_concat("DEL"@, key, '\t');
    lemma_split_on_no_sep("DEL"@, '\t');
    lemma_split_on_no_sep(key, '\t');
    assert(split_on(x, '\t') =~= seq!["DEL"@, key]);
}

/// Replaying the record of a DEL removes the same key.
pub proof fn lemma_del_record_replays(key: Seq<char>, e: AofEntry)
    requires
        !key.contains('\t'),
        key.len() > 0,
        !is_space(key.last()),
        replayed(del_record(key), e),
    ensures
        e matches AofEntry::Delete { key: k } && k@ == key,
{
    reveal_strlit("DEL");
    reveal_strlit("SET");
    lemma_del_record_fields(key);
    assert(is_ascii_chars("DEL"@));
    assert("DEL"@.map_values(|c: char| ascii_upper_char(c)) =~= "DEL"@);
    assert("DEL"@ != "SET"@) by {
        assert("DEL"@[0] != "SET"@[0]);
    }
}

/// Replaying the record of an EXPIRE sets the same key's expiry to the same time, when the
/// key holds no tab.
pub proof fn lemma_expire_record_replays(key: Seq<char>, at: u64, e: AofEntry)
    requires
        !key.contains('\t'),
        replayed(expire_record(key, at), e),
    ensures
        e matches AofEntry::ExpireAt { key: k, at: t } && k@ == key && t == at,
{
    reveal_strlit("EXPIRE\t");
    reveal_strlit("EXPIRE");
    reveal_strlit("DEL");
    reveal_strlit("SET");
    reveal_strlit("\t");
    let d = decimal(at as nat);
    lemma_tab_free_digits(at as nat);
    lemma_decimal_parses_back(at as nat);
    let tab = seq!['\t'];
    let x2 = key + tab + d;
    let x = "EXPIRE"@ + tab + x2;
    assert(expire_record(key, at) =~= x + "\n"@);
    assert(x[0] == 'E');
    assert(x.last() == d.last());
    lemma_trim_line(x);
    assert(!"EXPIRE"@.contains('\t')) by {
        if "EXPIRE"@.contains('\t') {
            let k = choose|k: int| 0 <= k < 6 && "EXPIRE"@[k] == '\t';
        }
    }
    lemma_split_on_concat(key, d, '\t');
    lemma_split_on_concat("EXPIRE"@, x2, '\t');
    lemma_split_on_no_sep("EXPIRE"@, '\t');
    lemma_split_on_no_sep(key, '\t');
    lemma_split_on_no_sep(d, '\t');
    assert(split_on(x, '\t') =~= seq!["EXPIRE"@, key, d]);
    let f = record_fields(expire_record(key, at));
    assert(f =~= seq!["EXPIRE"@, key, d]);
    assert(expire_field(d) == Some(at));
    assert(is_ascii_chars("EXPIRE"@));
    let up = "EXPIRE"@.map_values(|c: char| ascii_upper_char(c));
    assert(up =~= "EXPIRE"@);
    assert(up != "SET"@);
    assert(up != "DEL"@);
}

/// An old-format SET record (fields separated by spaces, no tab) with three or more fields
/// replays as a store of the key with the remaining fields joined by spaces, however many
/// there are.
pub proof fn lemma_legacy_set_replays(line: Seq<char>, e: AofEntry)
    requires
        !record_tabbed(line),
        record_fields(line).len() >= 3,
        record_fields(line)[0] == "SET"@,
        replayed(line, e),
    ensures
        e matches AofEntry::LegacyStore { key, text } && key@ == record_fields(line)[1] && text@
            == join(record_fields(line).subrange(2, record_fields(line).len() as int), " "@),
{
    reveal_strlit("SET");
    reveal_strlit("DEL");
    reveal_strlit("EXPIRE");
    assert(is_ascii_chars("SET"@));
    assert("SET"@.map_values(|c: char| ascii_upper_char(c)) =~= "SET"@);
    assert("SET"@ != "DEL"@) by {
        assert("SET"@[0] != "DEL"@[0]);
    }
    assert("SET"@ != "EXPIRE"@) by {
        assert("SET"@.len() != "EXPIRE"@.len());
    }
}

} // verus!
