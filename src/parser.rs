//! The parsers: memcached command lines from a connection's bytes, and sizes
//! with a unit suffix from the command line.
use vstd::prelude::*;
use vstd::slice::slice_subrange;
use vstd::string::StringSliceAdditionalSpecFns;

use crate::bytes::bytes_equal;
use crate::numeric::{all_digits, decimal_value, is_digit, parse_u64, spec_parse_u64};
use crate::store::{GetterType, IncrementerType, ServerCommand, SetterType};

verus! {

/// The multiplier that the unit after a size's digits stands for: none or
/// `b` for bytes, `k`, `m`, `g`, `t` (each optionally followed by `b`) for
/// powers of 1024.
pub open spec fn size_multiplier(unit: Seq<u8>) -> Option<nat> {
    if unit.len() == 2 && unit[1] != 98 {
        None
    } else if unit.len() > 2 {
        None
    } else if unit.len() == 0 {
        Some(1)
    } else if unit[0] == 98 && unit.len() == 1 {
        Some(1)
    } else if unit[0] == 107 {
        Some(1024)
    } else if unit[0] == 109 {
        Some(1024 * 1024)
    } else if unit[0] == 103 {
        Some(1024 * 1024 * 1024)
    } else if unit[0] == 116 {
        Some(1024 * 1024 * 1024 * 1024)
    } else {
        None
    }
}

/// `s` splits after `i` bytes into digits and a unit.
pub open spec fn size_split(s: Seq<u8>, i: int) -> bool {
    0 < i <= s.len() && all_digits(s.take(i)) && size_multiplier(s.skip(i)) is Some
}

/// The number of bytes that `s` names: digits, then an optional unit; `None`
/// when `s` has another shape or the number does not fit.
pub open spec fn spec_parse_size(s: Seq<u8>) -> Option<usize> {
    if exists|i: int| size_split(s, i) {
        let i = choose|i: int| size_split(s, i);
        let v = decimal_value(s.take(i)) * size_multiplier(s.skip(i))->0;
        if v <= usize::MAX {
            Some(v as usize)
        } else {
            None
        }
    } else {
        None
    }
}

proof fn lemma_take_value_grows(s: Seq<u8>, i: int, j: int)
    requires
        0 <= i <= j <= s.len(),
        all_digits(s.take(j)),
    ensures
        decimal_value(s.take(i)) <= decimal_value(s.take(j)),
    decreases j - i,
{
    if i < j {
        lemma_take_value_grows(s, i, j - 1);
        assert(s.take(j).drop_last() =~= s.take(j - 1));
    }
}

/// Reads a size such as `64m` or `2kb` as a number of bytes.
pub fn parse_size(size_str: &str) -> (r: Option<usize>)
    ensures
        r == spec_parse_size(size_str.spec_bytes()),
{
    let s = size_str.as_bytes();
    let ghost sv = s@;
    let mut i: usize = 0;
    let mut acc: u64 = 0;
    let mut fits = true;
    while i < s.len() && 48 <= s[i] && s[i] <= 57
        invariant
            sv == s@,
            i <= s@.len(),
            all_digits(s@.take(i as int)),
            fits ==> acc as nat == decimal_value(s@.take(i as int)),
            !fits ==> decimal_value(s@.take(i as int)) > u64::MAX,
        decreases s@.len() - i,
    {
        let d = (s[i] - 48) as u64;
        assert(s@.take(i + 1).drop_last() =~= s@.take(i as int));
        if fits {
            if acc > (u64::MAX - d) / 10 {
                fits = false;
            } else {
                acc = acc * 10 + d;
            }
        } else {
            assert(decimal_value(s@.take(i + 1)) >= decimal_value(s@.take(i as int)) * 10);
        }
        i = i + 1;
    }
    // i is the length of the leading run of digits
    let n = s.len();
    let mult: u64 = if i == n {
        1
    } else if i + 1 == n || (i + 2 == n && s[i + 1] == 98) {
        let u = s[i];
        if u == 98 && i + 1 == n {
            1
        } else if u == 107 {
            1024
        } else if u == 109 {
            1024 * 1024
        } else if u == 103 {
            1024 * 1024 * 1024
        } else if u == 116 {
            1024 * 1024 * 1024 * 1024
        } else {
            0
        }
    } else {
        0
    };
    proof {
        let unit = sv.skip(i as int);
        if i < n {
            assert(!is_digit(sv[i as int]));
        }
        assert forall|j: int| size_split(sv, j) implies j == i by {
            if j < i {
                assert(sv.skip(j)[0] == sv[j]);
                assert(is_digit(sv.take(i as int)[j]));
            } else if j > i {
                assert(sv.take(j)[i as int] == sv[i as int]);
            }
        }
        if mult != 0 && i > 0 {
            assert(size_multiplier(unit) == Some(mult as nat));
            assert(size_split(sv, i as int));
        } else {
            if i > 0 {
                assert(size_multiplier(unit) is None);
            }
            assert(!(exists|j: int| size_split(sv, j)));
        }
    }
    if i == 0 || mult == 0 || !fits {
        if i > 0 && mult != 0 && !fits {
            proof {
                assert(size_split(sv, i as int));
                assert(decimal_value(sv.take(i as int)) * mult >= decimal_value(sv.take(i as int)))
                    by (nonlinear_arith)
                    requires
                        mult >= 1,
                ;
            }
        }
        return None;
    }
    if acc > u64::MAX / mult {
        proof {
            assert(acc * mult > u64::MAX) by (nonlinear_arith)
                requires
                    acc > u64::MAX / mult,
                    mult >= 1,
            ;
        }
        return None;
    }
    proof {
        assert(acc * mult <= u64::MAX) by (nonlinear_arith)
            requires
                acc <= u64::MAX / mult,
                mult >= 1,
        ;
    }
    let v = acc * mult;
    if v > usize::MAX as u64 {
        return None;
    }
    Some(v as usize)
}

/// A parsed command together with whether the client wants a reply.
#[derive(Debug, PartialEq, Eq)]
pub struct CommandConfig<'a> {
    pub should_reply: bool,
    pub command: ServerCommand<'a>,
}

/// The outcome of parsing the front of a connection's buffer: a command and
/// the bytes after it, or word that more bytes are needed.
#[derive(Debug, PartialEq, Eq)]
pub enum IResult<'a> {
    Done(&'a [u8], CommandConfig<'a>),
    Incomplete,
}

/// A command with byte strings in place of slices.
pub enum CommandView {
    Setter { setter: SetterType, key: Seq<u8>, data: Seq<u8>, ttl: u32, flags: u32 },
    Getter { getter: GetterType, keys: Seq<Seq<u8>> },
    Delete { key: Seq<u8> },
    Touch { key: Seq<u8>, ttl: u32 },
    Incrementer { incrementer: IncrementerType, key: Seq<u8>, value: u64 },
    FlushAll,
    Bad(Seq<u8>),
    Quit,
    Version,
    Verbosity,
}

/// The keys of a `get` or `gets` as byte strings.
pub open spec fn slice_views(keys: Seq<&[u8]>) -> Seq<Seq<u8>> {
    keys.map_values(|k: &[u8]| k@)
}

pub open spec fn command_view(c: ServerCommand) -> CommandView {
    match c {
        ServerCommand::Setter { setter, key, data, ttl, flags } => CommandView::Setter {
            setter,
            key: key@,
            data: data@,
            ttl,
            flags,
        },
        ServerCommand::Getter { getter, keys } => CommandView::Getter {
            getter,
            keys: slice_views(keys@),
        },
        ServerCommand::Delete { key } => CommandView::Delete { key: key@ },
        ServerCommand::Touch { key, ttl } => CommandView::Touch { key: key@, ttl },
        ServerCommand::Incrementer { incrementer, key, value } => CommandView::Incrementer {
            incrementer,
            key: key@,
            value,
        },
        ServerCommand::FlushAll => CommandView::FlushAll,
        ServerCommand::Bad(line) => CommandView::Bad(line@),
        ServerCommand::Quit => CommandView::Quit,
        ServerCommand::Version => CommandView::Version,
        ServerCommand::Verbosity => CommandView::Verbosity,
    }
}

/// What a command line says: a whole command, or a storage command whose
/// data block of `bytes` bytes follows the line; `Invalid` for any other line.
pub enum LineView {
    Complete { command: CommandView, should_reply: bool },
    Storage { setter: SetterType, key: Seq<u8>, flags: u32, ttl: u32, bytes: nat, should_reply: bool },
    Invalid,
}

/// The outcome of parsing the bytes `s`.
pub enum ParseView {
    Incomplete,
    Done { consumed: nat, should_reply: bool, command: CommandView },
}

/// Fields on a line are separated by runs of spaces and tabs.
pub open spec fn is_sep(b: u8) -> bool {
    b == 32 || b == 9
}

/// The fields completed so far on `line`, and the one being read.
pub open spec fn scan_fields(line: Seq<u8>) -> (Seq<Seq<u8>>, Seq<u8>)
    decreases line.len(),
{
    if line.len() == 0 {
        (Seq::empty(), Seq::empty())
    } else {
        let prev = scan_fields(line.drop_last());
        let b = line.last();
        if is_sep(b) {
            if prev.1.len() > 0 {
                (prev.0.push(prev.1), Seq::empty())
            } else {
                (prev.0, Seq::empty())
            }
        } else {
            (prev.0, prev.1.push(b))
        }
    }
}

/// The fields of `line`: its maximal runs of bytes other than spaces and tabs.
pub open spec fn fields(line: Seq<u8>) -> Seq<Seq<u8>> {
    let p = scan_fields(line);
    if p.1.len() > 0 {
        p.0.push(p.1)
    } else {
        p.0
    }
}

/// A command line is not empty and neither starts nor ends with a separator.
pub open spec fn framed(line: Seq<u8>) -> bool {
    line.len() > 0 && !is_sep(line[0]) && !is_sep(line.last())
}

/// A key: one or more bytes, none of them a space, tab, CR, LF or NUL.
pub open spec fn is_key(t: Seq<u8>) -> bool {
    t.len() > 0 && forall|i: int|
        0 <= i < t.len() ==> !is_sep(#[trigger] t[i]) && t[i] != 13 && t[i] != 10 && t[i] != 0
}

/// `t` read as a 32-bit decimal.
pub open spec fn spec_parse_u32(t: Seq<u8>) -> Option<u32> {
    match spec_parse_u64(t) {
        Some(v) => if v <= u32::MAX {
            Some(v as u32)
        } else {
            None
        },
        None => None,
    }
}

/// The line has `n` fields, or `n` and then `noreply`: whether a reply is wanted.
pub open spec fn reply_wanted(t: Seq<Seq<u8>>, n: int) -> Option<bool> {
    if t.len() == n {
        Some(true)
    } else if t.len() == n + 1 && t[n] == "noreply".spec_bytes() {
        Some(false)
    } else {
        None
    }
}

/// The storage command that a name stands for, other than `cas`.
pub open spec fn storage_name(name: Seq<u8>) -> Option<SetterType> {
    if name == "set".spec_bytes() {
        Some(SetterType::Put)
    } else if name == "add".spec_bytes() {
        Some(SetterType::Add)
    } else if name == "prepend".spec_bytes() {
        Some(SetterType::Prepend)
    } else if name == "replace".spec_bytes() {
        Some(SetterType::Replace)
    } else if name == "append".spec_bytes() {
        Some(SetterType::Append)
    } else {
        None
    }
}

/// What the fields `t` of a command line say.
pub open spec fn line_command(t: Seq<Seq<u8>>) -> LineView {
    if t.len() == 0 {
        LineView::Invalid
    } else {
        let name = t[0];
        if name == "quit".spec_bytes() {
            if t.len() == 1 {
                LineView::Complete { command: CommandView::Quit, should_reply: true }
            } else {
                LineView::Invalid
            }
        } else if name == "version".spec_bytes() {
            if t.len() == 1 {
                LineView::Complete { command: CommandView::Version, should_reply: true }
            } else {
                LineView::Invalid
            }
        } else if name == "flush_all".spec_bytes() {
            match reply_wanted(t, 1) {
                Some(r) => LineView::Complete { command: CommandView::FlushAll, should_reply: r },
                None => LineView::Invalid,
            }
        } else if name == "verbosity".spec_bytes() {
            match reply_wanted(t, 2) {
                Some(r) => if spec_parse_u32(t[1]) is Some {
                    LineView::Complete { command: CommandView::Verbosity, should_reply: r }
                } else {
                    LineView::Invalid
                },
                None => LineView::Invalid,
            }
        } else if storage_name(name) is Some {
            match reply_wanted(t, 5) {
                Some(r) => if is_key(t[1]) && spec_parse_u32(t[2]) is Some && spec_parse_u32(t[3]) is Some
                    && spec_parse_u32(t[4]) is Some {
                    LineView::Storage {
                        setter: storage_name(name)->0,
                        key: t[1],
                        flags: spec_parse_u32(t[2])->0,
                        ttl: spec_parse_u32(t[3])->0,
                        bytes: spec_parse_u32(t[4])->0 as nat,
                        should_reply: r,
                    }
                } else {
                    LineView::Invalid
                },
                None => LineView::Invalid,
            }
        } else if name == "cas".spec_bytes() {
            match reply_wanted(t, 6) {
                Some(r) => if is_key(t[1]) && spec_parse_u32(t[2]) is Some && spec_parse_u32(t[3]) is Some
                    && spec_parse_u64(t[4]) is Some && spec_parse_u64(t[4])->0 <= usize::MAX
                    && spec_parse_u64(t[5]) is Some {
                    LineView::Storage {
                        setter: SetterType::Cas(spec_parse_u64(t[5])->0),
                        key: t[1],
                        flags: spec_parse_u32(t[2])->0,
                        ttl: spec_parse_u32(t[3])->0,
                        bytes: spec_parse_u64(t[4])->0 as nat,
                        should_reply: r,
                    }
                } else {
                    LineView::Invalid
                },
                None => LineView::Invalid,
            }
        } else if name == "gets".spec_bytes() || name == "get".spec_bytes() {
            if t.len() >= 2 && forall|i: int| 1 <= i < t.len() ==> is_key(#[trigger] t[i]) {
                LineView::Complete {
                    command: CommandView::Getter {
                        getter: if name == "gets".spec_bytes() {
                            GetterType::Gets
                        } else {
                            GetterType::Get
                        },
                        keys: t.skip(1),
                    },
                    should_reply: true,
                }
            } else {
                LineView::Invalid
            }
        } else if name == "delete".spec_bytes() {
            match reply_wanted(t, 2) {
                Some(r) => if is_key(t[1]) {
                    LineView::Complete { command: CommandView::Delete { key: t[1] }, should_reply: r }
                } else {
                    LineView::Invalid
                },
                None => LineView::Invalid,
            }
        } else if name == "incr".spec_bytes() || name == "decr".spec_bytes() {
            match reply_wanted(t, 3) {
                Some(r) => if is_key(t[1]) && spec_parse_u64(t[2]) is Some {
                    LineView::Complete {
                        command: CommandView::Incrementer {
                            incrementer: if name == "incr".spec_bytes() {
                                IncrementerType::Incr
                            } else {
                                IncrementerType::Decr
                            },
                            key: t[1],
                            value: spec_parse_u64(t[2])->0,
                        },
                        should_reply: r,
                    }
                } else {
                    LineView::Invalid
                },
                None => LineView::Invalid,
            }
        } else if name == "touch".spec_bytes() {
            match reply_wanted(t, 3) {
                Some(r) => if is_key(t[1]) && spec_parse_u32(t[2]) is Some {
                    LineView::Complete {
                        command: CommandView::Touch { key: t[1], ttl: spec_parse_u32(t[2])->0 },
                        should_reply: r,
                    }
                } else {
                    LineView::Invalid
                },
                None => LineView::Invalid,
            }
        } else {
            LineView::Invalid
        }
    }
}

/// `s` holds its first CR LF at `e`.
pub open spec fn first_crlf(s: Seq<u8>, e: int) -> bool {
    &&& 0 <= e
    &&& e + 1 < s.len()
    &&& s[e] == 13
    &&& s[e + 1] == 10
    &&& forall|j: int| 0 <= j < e ==> !(#[trigger] s[j] == 13 && s[j + 1] == 10)
}

/// The command at the front of `s`. The first line (up to CR LF) is read as
/// a command; a storage command also takes the data block and the CR LF after
/// it. A line that is no command, or a data block not followed by CR LF, is
/// `Bad`, carrying the line. Without a whole line, or with a data block cut
/// short, more bytes are needed.
pub open spec fn spec_parse(s: Seq<u8>) -> ParseView {
    if exists|e: int| first_crlf(s, e) {
        let e = choose|e: int| first_crlf(s, e);
        let line = s.take(e);
        let bad = ParseView::Done {
            consumed: (e + 2) as nat,
            should_reply: true,
            command: CommandView::Bad(line),
        };
        if !framed(line) {
            bad
        } else {
            match line_command(fields(line)) {
                LineView::Invalid => bad,
                LineView::Complete { command, should_reply } => ParseView::Done {
                    consumed: (e + 2) as nat,
                    should_reply,
                    command,
                },
                LineView::Storage { setter, key, flags, ttl, bytes, should_reply } => {
                    let end = e + 2 + bytes;
                    if s.len() < end + 2 {
                        ParseView::Incomplete
                    } else if s[end] == 13 && s[end + 1] == 10 {
                        ParseView::Done {
                            consumed: (end + 2) as nat,
                            should_reply,
                            command: CommandView::Setter {
                                setter,
                                key,
                                data: s.subrange(e + 2, end),
                                ttl,
                                flags,
                            },
                        }
                    } else {
                        bad
                    }
                },
            }
        }
    } else {
        ParseView::Incomplete
    }
}

/// The result of `parse_command` on `s` is the one `spec_parse` describes.
pub open spec fn parsed_as(s: Seq<u8>, r: IResult) -> bool {
    match spec_parse(s) {
        ParseView::Incomplete => r is Incomplete,
        ParseView::Done { consumed, should_reply, command } => match r {
            IResult::Done(rest, config) => {
                &&& consumed <= s.len()
                &&& rest@ == s.skip(consumed as int)
                &&& config.should_reply == should_reply
                &&& command_view(config.command) == command
            },
            IResult::Incomplete => false,
        },
    }
}

/// The position of the first CR LF in `s`.
fn find_crlf(s: &[u8]) -> (r: Option<usize>)
    ensures
        match r {
            Some(e) => first_crlf(s@, e as int),
            None => !(exists|e: int| first_crlf(s@, e)),
        },
{
    let mut i: usize = 0;
    while i < s.len()
        invariant
            i <= s@.len(),
            forall|j: int| 0 <= j < i && j + 1 < s@.len() ==> !(#[trigger] s@[j] == 13 && s@[j + 1] == 10),
        decreases s@.len() - i,
    {
        if i + 1 < s.len() && s[i] == 13 && s[i + 1] == 10 {
            return Some(i);
        }
        i = i + 1;
    }
    proof {
        assert forall|e: int| !first_crlf(s@, e) by {
            if first_crlf(s@, e) {
                assert(s@[e] == 13 && s@[e + 1] == 10);
            }
        }
    }
    None
}

/// Splits a line into its fields.
fn split_fields<'a>(line: &'a [u8]) -> (r: Vec<&'a [u8]>)
    ensures
        slice_views(r@) == fields(line@),
{
    let mut toks: Vec<&'a [u8]> = Vec::new();
    let mut start: usize = 0;
    let mut i: usize = 0;
    assert(line@.take(0) =~= Seq::<u8>::empty());
    assert(slice_views(toks@) =~= Seq::<Seq<u8>>::empty());
    while i < line.len()
        invariant
            start <= i <= line@.len(),
            scan_fields(line@.take(i as int)) == (slice_views(toks@), line@.subrange(
                start as int,
                i as int,
            )),
        decreases line@.len() - i,
    {
        let ghost before = slice_views(toks@);
        assert(line@.take(i + 1).drop_last() =~= line@.take(i as int));
        assert(line@.take(i + 1).last() == line@[i as int]);
        if line[i] == 32 || line[i] == 9 {
            if start < i {
                toks.push(slice_subrange(line, start, i));
                assert(slice_views(toks@) =~= before.push(line@.subrange(start as int, i as int)));
            }
            start = i + 1;
            assert(line@.subrange(start as int, start as int) =~= Seq::<u8>::empty());
        } else {
            assert(line@.subrange(start as int, i + 1) =~= line@.subrange(start as int, i as int).push(
                line@[i as int],
            ));
        }
        i = i + 1;
    }
    assert(line@.take(line@.len() as int) =~= line@);
    if start < line.len() {
        let ghost before = slice_views(toks@);
        toks.push(slice_subrange(line, start, line.len()));
        assert(slice_views(toks@) =~= before.push(line@.subrange(start as int, line@.len() as int)));
    }
    toks
}

/// Whether `t` is a key.
fn check_key(t: &[u8]) -> (r: bool)
    ensures
        r == is_key(t@),
{
    if t.len() == 0 {
        return false;
    }
    let mut i: usize = 0;
    while i < t.len()
        invariant
            i <= t@.len(),
            forall|j: int|
                0 <= j < i ==> !is_sep(#[trigger] t@[j]) && t@[j] != 13 && t@[j] != 10 && t@[j]
                    != 0,
        decreases t@.len() - i,
    {
        let b = t[i];
        if b == 32 || b == 9 || b == 13 || b == 10 || b == 0 {
            return false;
        }
        i = i + 1;
    }
    true
}

/// Reads `t` as a 32-bit decimal.
fn parse_u32(t: &[u8]) -> (r: Option<u32>)
    ensures
        r == spec_parse_u32(t@),
{
    match parse_u64(t) {
        Some(v) => if v <= u32::MAX as u64 {
            Some(v as u32)
        } else {
            None
        },
        None => None,
    }
}

fn reply_flag(t: &Vec<&[u8]>, n: usize) -> (r: Option<bool>)
    ensures
        r == reply_wanted(slice_views(t@), n as int),
{
    if t.len() == n {
        Some(true)
    } else if n < usize::MAX && t.len() == n + 1 && bytes_equal(t[n], "noreply".as_bytes()) {
        Some(false)
    } else {
        None
    }
}

/// A command line read into slices of the input.
enum LineCmd<'a> {
    Complete(ServerCommand<'a>, bool),
    Storage(SetterType, &'a [u8], u32, u32, usize, bool),
    Invalid,
}

spec fn line_view(l: LineCmd) -> LineView {
    match l {
        LineCmd::Complete(command, should_reply) => LineView::Complete {
            command: command_view(command),
            should_reply,
        },
        LineCmd::Storage(setter, key, flags, ttl, bytes, should_reply) => LineView::Storage {
            setter,
            key: key@,
            flags,
            ttl,
            bytes: bytes as nat,
            should_reply,
        },
        LineCmd::Invalid => LineView::Invalid,
    }
}

fn storage_setter(name: &[u8]) -> (r: Option<SetterType>)
    ensures
        r == storage_name(name@),
{
    if bytes_equal(name, "set".as_bytes()) {
        Some(SetterType::Put)
    } else if bytes_equal(name, "add".as_bytes()) {
        Some(SetterType::Add)
    } else if bytes_equal(name, "prepend".as_bytes()) {
        Some(SetterType::Prepend)
    } else if bytes_equal(name, "replace".as_bytes()) {
        Some(SetterType::Replace)
    } else if bytes_equal(name, "append".as_bytes()) {
        Some(SetterType::Append)
    } else {
        None
    }
}

/// The fields after the first, if all of them are keys.
fn collect_keys<'a>(t: &Vec<&'a [u8]>) -> (r: Option<Vec<&'a [u8]>>)
    requires
        t@.len() >= 1,
    ensures
        match r {
            Some(keys) => (forall|j: int|
                1 <= j < t@.len() ==> is_key(#[trigger] slice_views(t@)[j])) && slice_views(keys@)
                == slice_views(t@).skip(1),
            None => !(forall|j: int| 1 <= j < t@.len() ==> is_key(#[trigger] slice_views(t@)[j])),
        },
{
    let ghost tv = slice_views(t@);
    let mut keys: Vec<&'a [u8]> = Vec::new();
    let mut i: usize = 1;
    assert(slice_views(keys@) =~= tv.subrange(1, 1));
    while i < t.len()
        invariant
            tv == slice_views(t@),
            1 <= i <= t@.len(),
            forall|j: int| 1 <= j < i ==> is_key(#[trigger] tv[j]),
            slice_views(keys@) == tv.subrange(1, i as int),
        decreases t@.len() - i,
    {
        assert(tv[i as int] == t@[i as int]@);
        if !check_key(t[i]) {
            return None;
        }
        let ghost before = slice_views(keys@);
        let k = t[i];
        keys.push(k);
        assert(slice_views(keys@) =~= before.push(k@));
        assert(tv.subrange(1, i + 1) =~= tv.subrange(1, i as int).push(tv[i as int]));
        i = i + 1;
    }
    assert(tv.subrange(1, tv.len() as int) =~= tv.skip(1));
    Some(keys)
}

/// Reads the fields of a command line.
fn classify<'a>(t: &Vec<&'a [u8]>) -> (r: LineCmd<'a>)
    ensures
        line_view(r) == line_command(slice_views(t@)),
{
    let ghost tv = slice_views(t@);
    if t.len() == 0 {
        return LineCmd::Invalid;
    }
    let name = t[0];
    assert(tv[0] == name@);
    if bytes_equal(name, "quit".as_bytes()) {
        if t.len() == 1 {
            LineCmd::Complete(ServerCommand::Quit, true)
        } else {
            LineCmd::Invalid
        }
    } else if bytes_equal(name, "version".as_bytes()) {
        if t.len() == 1 {
            LineCmd::Complete(ServerCommand::Version, true)
        } else {
            LineCmd::Invalid
        }
    } else if bytes_equal(name, "flush_all".as_bytes()) {
        match reply_flag(t, 1) {
            Some(r) => LineCmd::Complete(ServerCommand::FlushAll, r),
            None => LineCmd::Invalid,
        }
    } else if bytes_equal(name, "verbosity".as_bytes()) {
        match reply_flag(t, 2) {
            Some(r) => {
                assert(tv[1] == t@[1]@);
                if parse_u32(t[1]).is_some() {
                    LineCmd::Complete(ServerCommand::Verbosity, r)
                } else {
                    LineCmd::Invalid
                }
            },
            None => LineCmd::Invalid,
        }
    } else if let Some(setter) = storage_setter(name) {
        match reply_flag(t, 5) {
            Some(r) => {
                assert(tv[1] == t@[1]@ && tv[2] == t@[2]@ && tv[3] == t@[3]@ && tv[4] == t@[4]@);
                if !check_key(t[1]) {
                    return LineCmd::Invalid;
                }
                match (parse_u32(t[2]), parse_u32(t[3]), parse_u32(t[4])) {
                    (Some(flags), Some(ttl), Some(bytes)) => LineCmd::Storage(
                        setter,
                        t[1],
                        flags,
                        ttl,
                        bytes as usize,
                        r,
                    ),
                    _ => LineCmd::Invalid,
                }
            },
            None => LineCmd::Invalid,
        }
    } else if bytes_equal(name, "cas".as_bytes()) {
        match reply_flag(t, 6) {
            Some(r) => {
                assert(tv[1] == t@[1]@ && tv[2] == t@[2]@ && tv[3] == t@[3]@ && tv[4] == t@[4]@ && tv[5]
                    == t@[5]@);
                if !check_key(t[1]) {
                    return LineCmd::Invalid;
                }
                match (parse_u32(t[2]), parse_u32(t[3]), parse_u64(t[4]), parse_u64(t[5])) {
                    (Some(flags), Some(ttl), Some(bytes), Some(unique)) => {
                        if bytes > usize::MAX as u64 {
                            LineCmd::Invalid
                        } else {
                            LineCmd::Storage(
                                SetterType::Cas(unique),
                                t[1],
                                flags,
                                ttl,
                                bytes as usize,
                                r,
                            )
                        }
                    },
                    _ => LineCmd::Invalid,
                }
            },
            None => LineCmd::Invalid,
        }
    } else if bytes_equal(name, "gets".as_bytes()) || bytes_equal(name, "get".as_bytes()) {
        if t.len() < 2 {
            return LineCmd::Invalid;
        }
        let getter = if bytes_equal(name, "gets".as_bytes()) {
            GetterType::Gets
        } else {
            GetterType::Get
        };
        match collect_keys(t) {
            Some(keys) => LineCmd::Complete(ServerCommand::Getter { getter: getter, keys: keys }, true),
            None => LineCmd::Invalid,
        }
    } else if bytes_equal(name, "delete".as_bytes()) {
        match reply_flag(t, 2) {
            Some(r) => {
                assert(tv[1] == t@[1]@);
                if check_key(t[1]) {
                    LineCmd::Complete(ServerCommand::Delete { key: t[1] }, r)
                } else {
                    LineCmd::Invalid
                }
            },
            None => LineCmd::Invalid,
        }
    } else if bytes_equal(name, "incr".as_bytes()) || bytes_equal(name, "decr".as_bytes()) {
        match reply_flag(t, 3) {
            Some(r) => {
                assert(tv[1] == t@[1]@ && tv[2] == t@[2]@);
                if !check_key(t[1]) {
                    return LineCmd::Invalid;
                }
                match parse_u64(t[2]) {
                    Some(value) => {
                        let incrementer = if bytes_equal(name, "incr".as_bytes()) {
                            IncrementerType::Incr
                        } else {
                            IncrementerType::Decr
                        };
                        LineCmd::Complete(
                            ServerCommand::Incrementer { incrementer: incrementer, key: t[1], value: value },
                            r,
                        )
                    },
                    None => LineCmd::Invalid,
                }
            },
            None => LineCmd::Invalid,
        }
    } else if bytes_equal(name, "touch".as_bytes()) {
        match reply_flag(t, 3) {
            Some(r) => {
                assert(tv[1] == t@[1]@ && tv[2] == t@[2]@);
                if !check_key(t[1]) {
                    return LineCmd::Invalid;
                }
                match parse_u32(t[2]) {
                    Some(ttl) => LineCmd::Complete(ServerCommand::Touch { key: t[1], ttl: ttl }, r),
                    None => LineCmd::Invalid,
                }
            },
            None => LineCmd::Invalid,
        }
    } else {
        LineCmd::Invalid
    }
}

/// Whether `line` is framed as a command line.
fn check_framed(line: &[u8]) -> (r: bool)
    ensures
        r == framed(line@),
{
    line.len() > 0 && line[0] != 32 && line[0] != 9 && line[line.len() - 1] != 32 && line[line.len()
        - 1] != 9
}

/// Parses the command at the front of `input`.
pub fn parse_command<'a>(input: &'a [u8]) -> (r: IResult<'a>)
    ensures
        parsed_as(input@, r),
{
    let e = match find_crlf(input) {
        None => {
            return IResult::Incomplete;
        },
        Some(e) => e,
    };
    let n = input.len();
    assert(first_crlf(input@, e as int));
    assert(e + 1 < n);
    let line = slice_subrange(input, 0, e);
    let after_line = slice_subrange(input, e + 2, n);
    assert(line@ =~= input@.take(e as int));
    assert(after_line@ =~= input@.skip(e + 2));
    let bad = IResult::Done(
        after_line,
        CommandConfig { should_reply: true, command: ServerCommand::Bad(line) },
    );
    if !check_framed(line) {
        return bad;
    }
    let toks = split_fields(line);
    match classify(&toks) {
        LineCmd::Invalid => bad,
        LineCmd::Complete(command, should_reply) => IResult::Done(
            after_line,
            CommandConfig { should_reply: should_reply, command: command },
        ),
        LineCmd::Storage(setter, key, flags, ttl, bytes, should_reply) => {
            let start = e + 2;
            let left = input.len() - start;
            if bytes > left || left - bytes < 2 {
                return IResult::Incomplete;
            }
            let end = start + bytes;
            if input[end] == 13 && input[end + 1] == 10 {
                let data = slice_subrange(input, start, end);
                let rest = slice_subrange(input, end + 2, input.len());
                assert(rest@ =~= input@.skip(end + 2));
                IResult::Done(
                    rest,
                    CommandConfig {
                        should_reply: should_reply,
                        command: ServerCommand::Setter {
                            setter: setter,
                            key: key,
                            data: data,
                            ttl: ttl,
                            flags: flags,
                        },
                    },
                )
            } else {
                bad
            }
        },
    }
}

} // verus!
