use rustcache::parser::{parse_command, parse_size, CommandConfig, IResult};
use rustcache::store::{GetterType, IncrementerType, ServerCommand, SetterType};

#[test]
pub fn commands() {
    let tests: Vec<(&str, IResult)> = vec![
        ("set foo 12 34 5\r\ndata!\r\n",
         IResult::Done(b"", CommandConfig { should_reply: true, command: ServerCommand::Setter { setter: SetterType::Put, key: b"foo", data: b"data!", ttl: 34, flags: 12 } })),
        ("set foo 12 34 5 noreply\r\ndata!\r\n",
         IResult::Done(b"", CommandConfig { should_reply: false, command: ServerCommand::Setter { setter: SetterType::Put, key: b"foo", data: b"data!", ttl: 34, flags: 12 } })),
        ("add foo 12 34 5\r\ndata!\r\n",
         IResult::Done(b"", CommandConfig { should_reply: true, command: ServerCommand::Setter { setter: SetterType::Add, key: b"foo", data: b"data!", ttl: 34, flags: 12 } })),
        ("add foo 12 34 5 noreply\r\ndata!\r\n",
         IResult::Done(b"", CommandConfig { should_reply: false, command: ServerCommand::Setter { setter: SetterType::Add, key: b"foo", data: b"data!", ttl: 34, flags: 12 } })),
        ("append foo 12 34 5\r\ndata!\r\n",
         IResult::Done(b"", CommandConfig { should_reply: true, command: ServerCommand::Setter { setter: SetterType::Append, key: b"foo", data: b"data!", ttl: 34, flags: 12 } })),
        ("append foo 12 34 5 noreply\r\ndata!\r\n",
         IResult::Done(b"", CommandConfig { should_reply: false, command: ServerCommand::Setter { setter: SetterType::Append, key: b"foo", data: b"data!", ttl: 34, flags: 12 } })),
        ("prepend foo 12 34 5\r\ndata!\r\n",
         IResult::Done(b"", CommandConfig { should_reply: true, command: ServerCommand::Setter { setter: SetterType::Prepend, key: b"foo", data: b"data!", ttl: 34, flags: 12 } })),
        ("prepend foo 12 34 5 noreply\r\ndata!\r\n",
         IResult::Done(b"", CommandConfig { should_reply: false, command: ServerCommand::Setter { setter: SetterType::Prepend, key: b"foo", data: b"data!", ttl: 34, flags: 12 } })),
        ("replace foo 12 34 5 noreply\r\ndata!\r\n",
         IResult::Done(b"", CommandConfig { should_reply: false, command: ServerCommand::Setter { setter: SetterType::Replace, key: b"foo", data: b"data!", ttl: 34, flags: 12 } })),
        ("replace foo 12 34 5 noreply\r\ndata!\r\n",
         IResult::Done(b"", CommandConfig { should_reply: false, command: ServerCommand::Setter { setter: SetterType::Replace, key: b"foo", data: b"data!", ttl: 34, flags: 12 } })),

        ("cas foo 12 34 5 89\r\ndata!\r\n",
         IResult::Done(b"", CommandConfig { should_reply: true, command: ServerCommand::Setter { setter: SetterType::Cas(89), key: b"foo", data: b"data!", ttl: 34, flags: 12 } })),
        ("cas foo 12 34 5 89 noreply\r\ndata!\r\n",
         IResult::Done(b"", CommandConfig { should_reply: false, command: ServerCommand::Setter { setter: SetterType::Cas(89), key: b"foo", data: b"data!", ttl: 34, flags: 12 } })),

        ("get foo\r\n",
         IResult::Done(b"", CommandConfig { should_reply: true, command: ServerCommand::Getter { getter: GetterType::Get, keys: vec![b"foo"] } })),
        ("get foo1 foo2\r\n",
         IResult::Done(b"", CommandConfig { should_reply: true, command: ServerCommand::Getter { getter: GetterType::Get, keys: vec![b"foo1", b"foo2"] } })),
        ("gets foo\r\n",
         IResult::Done(b"", CommandConfig { should_reply: true, command: ServerCommand::Getter { getter: GetterType::Gets, keys: vec![b"foo"] } })),
        ("gets foo1 foo2\r\n",
         IResult::Done(b"", CommandConfig { should_reply: true, command: ServerCommand::Getter { getter: GetterType::Gets, keys: vec![b"foo1", b"foo2"] } })),

        ("delete foo\r\n",
         IResult::Done(b"", CommandConfig { should_reply: true, command: ServerCommand::Delete { key: b"foo" } })),
        ("delete foo noreply\r\n",
         IResult::Done(b"", CommandConfig { should_reply: false, command: ServerCommand::Delete { key: b"foo" } })),

        ("incr foo 5\r\n",
         IResult::Done(b"", CommandConfig { should_reply: true, command: ServerCommand::Incrementer { incrementer: IncrementerType::Incr, key: b"foo", value: 5 } })),
        ("incr foo 5 noreply\r\n",
         IResult::Done(b"", CommandConfig { should_reply: false, command: ServerCommand::Incrementer { incrementer: IncrementerType::Incr, key: b"foo", value: 5 } })),
        ("decr foo 5\r\n",
         IResult::Done(b"", CommandConfig { should_reply: true, command: ServerCommand::Incrementer { incrementer: IncrementerType::Decr, key: b"foo", value: 5 } })),
        ("decr foo 5 noreply\r\n",
         IResult::Done(b"", CommandConfig { should_reply: false, command: ServerCommand::Incrementer { incrementer: IncrementerType::Decr, key: b"foo", value: 5 } })),

        ("touch foo 5\r\n",
         IResult::Done(b"", CommandConfig { should_reply: true, command: ServerCommand::Touch { key: b"foo", ttl: 5 } })),
        ("touch foo 5 noreply\r\n",
         IResult::Done(b"", CommandConfig { should_reply: false, command: ServerCommand::Touch { key: b"foo", ttl: 5 } })),

        ("flush_all\r\n",
         IResult::Done(b"", CommandConfig { should_reply: true, command: ServerCommand::FlushAll })),
        ("flush_all noreply\r\n",
         IResult::Done(b"", CommandConfig { should_reply: false, command: ServerCommand::FlushAll })),
        ("version\r\n",
         IResult::Done(b"", CommandConfig { should_reply: true, command: ServerCommand::Version })),
        ("quit\r\n",
         IResult::Done(b"", CommandConfig { should_reply: true, command: ServerCommand::Quit })),
        ("verbosity 10\r\n",
         IResult::Done(b"", CommandConfig { should_reply: true, command: ServerCommand::Verbosity })),
        ("verbosity 10 noreply\r\n",
         IResult::Done(b"", CommandConfig { should_reply: false, command: ServerCommand::Verbosity })),

        ("foo bar\r\n",
         IResult::Done(b"", CommandConfig { should_reply: true, command: ServerCommand::Bad(b"foo bar") })),
        ("version foo bar\r\n",
         IResult::Done(b"", CommandConfig { should_reply: true, command: ServerCommand::Bad(b"version foo bar") })),
        ("\r\n",
         IResult::Done(b"", CommandConfig { should_reply: true, command: ServerCommand::Bad(b"") })),
    ];

    for &(ref command, ref expected_result) in &tests {
        println!("command: {:?}", *command);
        let parsed = parse_command(command.as_bytes());
        println!("expect:  {:?}", expected_result);
        println!("got:     {:?}", parsed);
        assert_eq!(*expected_result, parsed);
    }
}

#[test]
pub fn parse_sizes() {
    let tests = vec![
        ("0", Some(0)),
        ("1", Some(1)),
        ("1b", Some(1)),
        ("10", Some(10)),
        ("100", Some(100)),
        ("1k", Some(1024)),
        ("2k", Some(2048)),
        ("1m", Some(1024 * 1024)),
        ("2m", Some(2 * 1024 * 1024)),
        ("2mb", Some(2 * 1024 * 1024)),
        ("garbage", None),
        ("1.5gb", None), // might be nice to support this some day
    ];

    for &(ref text, ref expected_result) in &tests {
        println!("Parsing {:?}", text);
        let parsed = parse_size(text);
        assert_eq!(*expected_result, parsed);
    }
}

#[test]
fn more_sizes() {
    assert_eq!(parse_size("3g"), Some(3 * 1024 * 1024 * 1024));
    assert_eq!(parse_size("1tb"), Some(1024 * 1024 * 1024 * 1024));
    assert_eq!(parse_size(""), None);
    assert_eq!(parse_size("k"), None);
    assert_eq!(parse_size("1bb"), None);
    assert_eq!(parse_size("1kk"), None);
    assert_eq!(parse_size("1x"), None);
    assert_eq!(parse_size("99999999999999999999"), None);
    assert_eq!(parse_size("17179869184t"), None);
}

#[test]
fn incomplete_input() {
    assert_eq!(parse_command(b""), IResult::Incomplete);
    assert_eq!(parse_command(b"get foo"), IResult::Incomplete);
    assert_eq!(parse_command(b"get foo\r"), IResult::Incomplete);
    assert_eq!(parse_command(b"set foo 0 0 5\r\nda"), IResult::Incomplete);
    assert_eq!(parse_command(b"set foo 0 0 5\r\ndata!\r"), IResult::Incomplete);
}

#[test]
fn remaining_bytes_are_kept() {
    assert_eq!(
        parse_command(b"delete foo\r\nget bar\r\n"),
        IResult::Done(b"get bar\r\n", CommandConfig { should_reply: true, command: ServerCommand::Delete { key: b"foo" } })
    );
    assert_eq!(
        parse_command(b"set k 1 2 3\r\na\r\n\r\nquit\r\n"),
        IResult::Done(b"quit\r\n", CommandConfig {
            should_reply: true,
            command: ServerCommand::Setter { setter: SetterType::Put, key: b"k", data: b"a\r\n", ttl: 2, flags: 1 },
        })
    );
}

#[test]
fn malformed_lines_are_bad() {
    let bad = |line: &'static [u8], input: &'static [u8], rest: &'static [u8]| {
        assert_eq!(
            parse_command(input),
            IResult::Done(rest, CommandConfig { should_reply: true, command: ServerCommand::Bad(line) })
        );
    };
    bad(b"get foo ", b"get foo \r\n", b"");
    bad(b" get foo", b" get foo\r\n", b"");
    bad(b"get", b"get\r\n", b"");
    bad(b"delete foo bar", b"delete foo bar\r\n", b"");
    bad(b"incr foo -1", b"incr foo -1\r\n", b"");
    bad(b"incr foo 18446744073709551616", b"incr foo 18446744073709551616\r\n", b"");
    bad(b"touch foo 4294967296", b"touch foo 4294967296\r\n", b"");
    bad(b"quit now", b"quit now\r\n", b"");
    bad(b"delete foo noreplyx", b"delete foo noreplyx\r\n", b"");
    // a data block not followed by CR LF leaves the line as a bad command
    bad(b"set foo 0 0 2", b"set foo 0 0 2\r\nabc\r\n", b"abc\r\n");
}

#[test]
fn separators_may_repeat() {
    assert_eq!(
        parse_command(b"get  foo\tbar\r\n"),
        IResult::Done(b"", CommandConfig {
            should_reply: true,
            command: ServerCommand::Getter { getter: GetterType::Get, keys: vec![b"foo", b"bar"] },
        })
    );
}
