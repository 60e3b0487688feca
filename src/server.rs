//! The wire side of the protocol: the bytes that each response is written as.
use vstd::prelude::*;
use vstd::string::StringSliceAdditionalSpecFns;

use crate::numeric::{decimal, decimal_bytes};
use crate::parser::{command_view, parse_command, spec_parse, IResult, ParseView};
use crate::store::{applied, CasUnique, Entries, Response, ServerCommand, SingleGetResponse, Store, Ttl};

verus! {

/// The server's name, as `version` reports it.
pub const NAME: &'static str = "rustcache";

/// The server's version, as `version` reports it.
pub const VERSION: &'static str = "0.1.0";

/// The lines of one item of a `get` reply (`VALUE <key> <flags> <len>`) or of a
/// `gets` reply (with ` <unique> ` added), followed by the data.
pub open spec fn item_bytes(item: SingleGetResponse, with_unique: bool) -> Seq<u8> {
    let head = "VALUE ".spec_bytes() + item.key@ + " ".spec_bytes() + decimal(item.flags as nat)
        + " ".spec_bytes() + decimal(item.data@.len());
    let head = if with_unique {
        head + " ".spec_bytes() + decimal(item.unique as nat) + " ".spec_bytes()
    } else {
        head
    };
    head + "\r\n".spec_bytes() + item.data@ + "\r\n".spec_bytes()
}

/// All items of a `get` or `gets` reply, in order.
pub open spec fn items_bytes(items: Seq<SingleGetResponse>, with_unique: bool) -> Seq<u8>
    decreases items.len(),
{
    if items.len() == 0 {
        Seq::empty()
    } else {
        items_bytes(items.drop_last(), with_unique) + item_bytes(items.last(), with_unique)
    }
}

/// The bytes that `response` is written as.
pub open spec fn wire(response: Response) -> Seq<u8> {
    match response {
        Response::DataResponse { responses } => items_bytes(responses@, false) + "END\r\n".spec_bytes(),
        Response::GetsResponse { responses } => items_bytes(responses@, true) + "END\r\n".spec_bytes(),
        Response::IncrResponse { value } => decimal(value as nat) + "\r\n".spec_bytes(),
        Response::DeletedResponse => "DELETED\r\n".spec_bytes(),
        Response::TouchedResponse => "TOUCHED\r\n".spec_bytes(),
        Response::OkResponse => "OK\r\n".spec_bytes(),
        Response::StoredResponse => "STORED\r\n".spec_bytes(),
        Response::NotStoredResponse => "NOT_STORED\r\n".spec_bytes(),
        Response::ExistsResponse => "EXISTS\r\n".spec_bytes(),
        Response::NotFoundResponse => "NOT_FOUND\r\n".spec_bytes(),
        Response::ErrorResponse => "ERROR\r\n".spec_bytes(),
        Response::ClientErrorResponse { message } => "CLIENT_ERROR ".spec_bytes() + message@
            + "\r\n".spec_bytes(),
        Response::ServerError { message } => "SERVER_ERROR ".spec_bytes() + message@
            + "\r\n".spec_bytes(),
        Response::VersionResponse => "VERSION ".spec_bytes() + NAME.spec_bytes() + " ".spec_bytes()
            + VERSION.spec_bytes() + "\r\n".spec_bytes(),
        Response::TooBig => "SERVER_ERROR object too large for cache\r\n".spec_bytes(),
    }
}

/// Appends `s` to `out`.
fn put(out: &mut Vec<u8>, s: &[u8])
    ensures
        final(out)@ == old(out)@ + s@,
{
    out.extend_from_slice(s);
    assert(final(out)@ =~= old(out)@ + s@);
}

/// Appends the decimal digits of `n` to `out`.
fn put_number(out: &mut Vec<u8>, n: u64)
    ensures
        final(out)@ == old(out)@ + decimal(n as nat),
{
    let digits = decimal_bytes(n);
    put(out, digits.as_slice());
}

#[verifier::rlimit(40)]
fn put_item(out: &mut Vec<u8>, item: &SingleGetResponse, with_unique: bool)
    ensures
        final(out)@ == old(out)@ + item_bytes(*item, with_unique),
{
    put(out, "VALUE ".as_bytes());
    put(out, item.key);
    put(out, " ".as_bytes());
    put_number(out, item.flags as u64);
    put(out, " ".as_bytes());
    put_number(out, item.data.len() as u64);
    if with_unique {
        put(out, " ".as_bytes());
        put_number(out, item.unique);
        put(out, " ".as_bytes());
    }
    put(out, "\r\n".as_bytes());
    put(out, item.data.as_slice());
    put(out, "\r\n".as_bytes());
    proof {
        let head = "VALUE ".spec_bytes() + item.key@ + " ".spec_bytes() + decimal(item.flags as nat)
            + " ".spec_bytes() + decimal(item.data@.len());
        if with_unique {
            assert(final(out)@ =~= old(out)@ + (head + " ".spec_bytes() + decimal(item.unique as nat)
                + " ".spec_bytes() + "\r\n".spec_bytes() + item.data@ + "\r\n".spec_bytes()));
        } else {
            assert(final(out)@ =~= old(out)@ + (head + "\r\n".spec_bytes() + item.data@
                + "\r\n".spec_bytes()));
        }
    }
}

fn put_items(out: &mut Vec<u8>, items: &Vec<SingleGetResponse>, with_unique: bool)
    ensures
        final(out)@ == old(out)@ + items_bytes(items@, with_unique),
{
    let mut i: usize = 0;
    assert(items@.take(0) =~= Seq::<SingleGetResponse>::empty());
    assert(old(out)@ + items_bytes(Seq::<SingleGetResponse>::empty(), with_unique) =~= old(out)@);
    while i < items.len()
        invariant
            i <= items@.len(),
            out@ == old(out)@ + items_bytes(items@.take(i as int), with_unique),
        decreases items@.len() - i,
    {
        put_item(out, &items[i], with_unique);
        assert(items@.take(i + 1).drop_last() =~= items@.take(i as int));
        assert(out@ =~= old(out)@ + items_bytes(items@.take(i + 1), with_unique));
        i = i + 1;
    }
    assert(items@.take(items@.len() as int) =~= items@);
}

/// The bytes that `response` is written as on the wire.
pub fn format_response(response: &Response) -> (r: Vec<u8>)
    ensures
        r@ == wire(*response),
{
    let mut out: Vec<u8> = Vec::new();
    match response {
        Response::DataResponse { responses } => {
            put_items(&mut out, responses, false);
            put(&mut out, "END\r\n".as_bytes());
        },
        Response::GetsResponse { responses } => {
            put_items(&mut out, responses, true);
            put(&mut out, "END\r\n".as_bytes());
        },
        Response::IncrResponse { value } => {
            put_number(&mut out, *value);
            put(&mut out, "\r\n".as_bytes());
        },
        Response::DeletedResponse => put(&mut out, "DELETED\r\n".as_bytes()),
        Response::TouchedResponse => put(&mut out, "TOUCHED\r\n".as_bytes()),
        Response::OkResponse => put(&mut out, "OK\r\n".as_bytes()),
        Response::StoredResponse => put(&mut out, "STORED\r\n".as_bytes()),
        Response::NotStoredResponse => put(&mut out, "NOT_STORED\r\n".as_bytes()),
        Response::ExistsResponse => put(&mut out, "EXISTS\r\n".as_bytes()),
        Response::NotFoundResponse => put(&mut out, "NOT_FOUND\r\n".as_bytes()),
        Response::ErrorResponse => put(&mut out, "ERROR\r\n".as_bytes()),
        Response::ClientErrorResponse { message } => {
            put(&mut out, "CLIENT_ERROR ".as_bytes());
            put(&mut out, message);
            put(&mut out, "\r\n".as_bytes());
        },
        Response::ServerError { message } => {
            put(&mut out, "SERVER_ERROR ".as_bytes());
            put(&mut out, message);
            put(&mut out, "\r\n".as_bytes());
        },
        Response::TooBig => put(&mut out, "SERVER_ERROR object too large for cache\r\n".as_bytes()),
        Response::VersionResponse => {
            put(&mut out, "VERSION ".as_bytes());
            put(&mut out, NAME.as_bytes());
            put(&mut out, " ".as_bytes());
            put(&mut out, VERSION.as_bytes());
            put(&mut out, "\r\n".as_bytes());
        },
    }
    proof {
        assert(out@ =~= wire(*response));
    }
    out
}

/// What a connection does next with its buffered bytes.
#[derive(Debug)]
pub enum Step {
    /// No whole command yet: read more.
    NeedMore,
    /// The client asked to quit: close the connection.
    Close,
    /// A command ran: write `bytes`, then drop `consumed` bytes from the buffer.
    Reply { consumed: usize, bytes: Vec<u8> },
    /// A `noreply` command ran: drop `consumed` bytes from the buffer.
    Quiet { consumed: usize },
}

/// The step for the bytes `s` at `now`: the command at their front, if whole,
/// is applied (all but `quit`), and its reply, if wanted, is formatted.
pub open spec fn served(
    m: Entries,
    c: CasUnique,
    m2: Entries,
    c2: CasUnique,
    s: Seq<u8>,
    now: Ttl,
    capacity: nat,
    r: Step,
) -> bool {
    match spec_parse(s) {
        ParseView::Incomplete => r is NeedMore && m2 == m && c2 == c,
        ParseView::Done { consumed, should_reply, command } => if command is Quit {
            r is Close && m2 == m && c2 == c
        } else {
            exists|cmd: ServerCommand, resp: Response|
                command_view(cmd) == command && applied(m, c, m2, c2, cmd, now, capacity, resp)
                    && if should_reply {
                    r matches Step::Reply { consumed: k, bytes } && k == consumed && bytes@ == wire(
                        resp,
                    )
                } else {
                    r matches Step::Quiet { consumed: k } && k == consumed
                }
        },
    }
}

/// Handles the command at the front of a connection's buffered bytes.
pub fn serve_one(store: &mut Store, buffer: &[u8]) -> (r: Step)
    requires
        old(store).wf(),
    ensures
        final(store).wf(),
        final(store).spec_capacity() == old(store).spec_capacity(),
        final(store).clock() == old(store).clock(),
        exists|now: Ttl|
            old(store).reads(now) && served(
                old(store).entries(),
                old(store).last_token(),
                final(store).entries(),
                final(store).last_token(),
                buffer@,
                now,
                old(store).spec_capacity(),
                r,
            ),
{
    let now = store.now();
    match parse_command(buffer) {
        IResult::Incomplete => Step::NeedMore,
        IResult::Done(rest, config) => {
            let consumed = buffer.len() - rest.len();
            let should_reply = config.should_reply;
            let command = config.command;
            if let ServerCommand::Quit = command {
                return Step::Close;
            }
            let ghost cmd = command;
            let response = store.apply_at(command, now);
            let r = if should_reply {
                Step::Reply { consumed: consumed, bytes: format_response(&response) }
            } else {
                Step::Quiet { consumed: consumed }
            };
            assert(command_view(cmd) == command_view(cmd));
            r
        },
    }
}

} // verus!
