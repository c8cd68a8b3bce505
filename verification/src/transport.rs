//! A place to listen at and to call from, and how a target names whom to
//! call.

use std::time::Duration;
use vstd::prelude::*;
use vstd::slice::slice_to_vec;
use vstd::string::*;

use crate::connection::accepted;
use crate::connection::answer_to;
use crate::connection::negotiable;
use crate::connection::opened;
use crate::connection::origin_of;
use crate::connection::request_of;
use crate::connection::unit_view;
use crate::connection::Connection;
use crate::connection::ConnectionView;
use crate::error::result_view;
use crate::error::Error;
use crate::hex;
use crate::text;
use crate::text::find;
use crate::text::halves;
use crate::text::joined_by;
use crate::text::lemma_find;
use crate::text::lemma_halves;
use crate::text::lemma_no_halves;
use crate::text::lemma_pieces;
use crate::text::pieces;
use crate::tpdu::Tpdu;
use crate::tpdu::DEFAULT_SIZE_CODE;

verus! {

/// Where to listen, which TSAPs to call between, and the TPDU size to
/// propose or to accept at most.
#[derive(Clone, Debug)]
pub struct CotpTransport {
    pub bind: String,
    pub local_tsap: Vec<u8>,
    pub remote_tsap: Vec<u8>,
    pub size_code: u8,
    pub timeout: Option<Duration>,
}

/// The authority of a `cotp://` target: what stands between the scheme and
/// the first slash.
pub open spec fn authority_of(target: Seq<char>) -> Option<Seq<char>> {
    if "cotp://"@.is_prefix_of(target) {
        let rest = target.skip("cotp://"@.len() as int);
        Some(rest.take(find(rest, '/') as int))
    } else {
        None
    }
}

/// The address and the query of an authority, the query without its question
/// mark.
pub open spec fn address_and_query(authority: Seq<char>) -> (Seq<char>, Seq<char>) {
    match halves(authority, '?') {
        Some(parts) => parts,
        None => (authority, Seq::empty()),
    }
}

/// The key and the value of one piece of a query, the value empty where the
/// piece has no equals sign.
pub open spec fn key_and_value(piece: Seq<char>) -> (Seq<char>, Seq<char>) {
    match halves(piece, '=') {
        Some(parts) => parts,
        None => (piece, Seq::empty()),
    }
}

/// Whether a key names a TSAP.
pub open spec fn names_tsap(key: Seq<char>) -> bool {
    key == "src-tsap"@ || key == "dst-tsap"@
}

/// Whether one piece of a query is a TSAP that is not hex.
pub open spec fn bad_tsap(piece: Seq<char>) -> bool {
    names_tsap(key_and_value(piece).0) && hex::decoded(key_and_value(piece).1) is None
}

/// The first TSAP in a query that is not hex. Other keys may have any value.
pub open spec fn first_not_hex(query: Seq<Seq<char>>) -> Option<Seq<char>>
    decreases query.len(),
{
    if query.len() == 0 {
        None
    } else if bad_tsap(query[0]) {
        Some(key_and_value(query[0]).1)
    } else {
        first_not_hex(query.drop_first())
    }
}

/// The TSAP that a query whose TSAPs are all hex gives for `key`: the last
/// one it names, or `otherwise` where it names none.
pub open spec fn named(query: Seq<Seq<char>>, key: Seq<char>, otherwise: Seq<u8>) -> Seq<u8>
    decreases query.len(),
{
    if query.len() == 0 {
        otherwise
    } else if key_and_value(query.last()).0 == key {
        hex::decoded(key_and_value(query.last()).1)->0
    } else {
        named(query.drop_last(), key, otherwise)
    }
}

/// The address, this side's TSAP and the far end's for an authority, with
/// the TSAPs to use where its query names none; or the TSAP in the query that
/// is not hex.
pub open spec fn resolved_authority(
    authority: Seq<char>,
    local_tsap: Seq<u8>,
    remote_tsap: Seq<u8>,
) -> Result<(Seq<char>, Seq<u8>, Seq<u8>), Seq<char>> {
    let (address, query) = address_and_query(authority);
    let query = pieces(query, '&');
    match first_not_hex(query) {
        Some(value) => Err(value),
        None => Ok(
            (
                address,
                named(query, "src-tsap"@, local_tsap),
                named(query, "dst-tsap"@, remote_tsap),
            ),
        ),
    }
}

/// The same for a target and the authority it has as a `cotp://` URI; without
/// one it is its own address.
pub open spec fn resolved_with(
    target: Seq<char>,
    authority: Option<Seq<char>>,
    local_tsap: Seq<u8>,
    remote_tsap: Seq<u8>,
) -> Result<(Seq<char>, Seq<u8>, Seq<u8>), Seq<char>> {
    match authority {
        Some(authority) => resolved_authority(authority, local_tsap, remote_tsap),
        None => Ok((target, local_tsap, remote_tsap)),
    }
}

/// The same for a target, with the authority found in it.
pub open spec fn resolved(
    target: Seq<char>,
    local_tsap: Seq<u8>,
    remote_tsap: Seq<u8>,
) -> Result<(Seq<char>, Seq<u8>, Seq<u8>), Seq<char>> {
    resolved_with(target, authority_of(target), local_tsap, remote_tsap)
}

/// Whether `result` is what `expected` says: the same address and TSAPs, or
/// a refusal of the same value.
pub open spec fn resolves_to(
    result: Result<(String, Vec<u8>, Vec<u8>), Error>,
    expected: Result<(Seq<char>, Seq<u8>, Seq<u8>), Seq<char>>,
) -> bool {
    match (result, expected) {
        (Ok((address, local, remote)), Ok(parts)) => (address@, local@, remote@) == parts,
        (Err(Error::NotHex(value)), Err(refused)) => value@ == refused,
        _ => false,
    }
}

impl CotpTransport {
    /// Listen at `bind`; `0.0.0.0:102` is the standard port. Calls go out
    /// from TSAP `0100` to TSAP `0102` until [`CotpTransport::with_tsaps`]
    /// says otherwise, proposing a 1024-byte TPDU.
    #[must_use]
    pub fn new(bind: &str) -> (transport: CotpTransport)
        ensures
            transport.bind@ == bind@,
            transport.local_tsap@ == seq![0x01u8, 0x00],
            transport.remote_tsap@ == seq![0x01u8, 0x02],
            transport.size_code == DEFAULT_SIZE_CODE == 10,
            transport.timeout == None::<Duration>,
    {
        CotpTransport {
            bind: bind.to_owned(),
            local_tsap: vec![0x01, 0x00],
            remote_tsap: vec![0x01, 0x02],
            size_code: DEFAULT_SIZE_CODE,
            timeout: None,
        }
    }

    /// The TSAPs a call is made between: this side's, then the far end's.
    #[must_use]
    pub fn with_tsaps(self, local: Vec<u8>, remote: Vec<u8>) -> (transport: CotpTransport)
        ensures
            transport == (CotpTransport { local_tsap: local, remote_tsap: remote, ..self }),
    {
        CotpTransport { local_tsap: local, remote_tsap: remote, ..self }
    }

    /// Propose, or accept at most, a TPDU of 2^`code` bytes; 7 to 13.
    #[must_use]
    pub fn with_tpdu_size_code(self, code: u8) -> (transport: CotpTransport)
        ensures
            transport == (CotpTransport { size_code: code, ..self }),
    {
        CotpTransport { size_code: code, ..self }
    }

    /// Give up on a peer that stops mid-message.
    #[must_use]
    pub fn timing_out_after(self, timeout: Duration) -> (transport: CotpTransport)
        ensures
            transport == (CotpTransport { timeout: Some(timeout), ..self }),
    {
        CotpTransport { timeout: Some(timeout), ..self }
    }

    /// Both ends on this machine: an ephemeral local port, the default
    /// TSAPs, `timeout` on every read.
    #[must_use]
    pub fn loopback(timeout: Duration) -> (transport: CotpTransport)
        ensures
            transport.bind@ == "127.0.0.1:0"@,
            transport.local_tsap@ == seq![0x01u8, 0x00],
            transport.remote_tsap@ == seq![0x01u8, 0x02],
            transport.size_code == DEFAULT_SIZE_CODE,
            transport.timeout == Some(timeout),
    {
        CotpTransport::new("127.0.0.1:0").timing_out_after(timeout)
    }

    /// Who calls this transport on this machine: the same TSAPs and size
    /// code from an ephemeral local port, `timeout` on every read.
    #[must_use]
    pub fn loopback_caller(&self, timeout: Duration) -> (transport: CotpTransport)
        ensures
            transport.bind@ == "127.0.0.1:0"@,
            transport.local_tsap@ == self.local_tsap@,
            transport.remote_tsap@ == self.remote_tsap@,
            transport.size_code == self.size_code,
            transport.timeout == Some(timeout),
    {
        CotpTransport::new("127.0.0.1:0").with_tsaps(
            slice_to_vec(&self.local_tsap),
            slice_to_vec(&self.remote_tsap),
        ).with_tpdu_size_code(self.size_code).timing_out_after(timeout)
    }

    /// The CR to call with between the configured TSAPs.
    #[must_use]
    pub fn request(&self) -> (unit: Tpdu)
        ensures
            unit@ == request_of(self.local_tsap@, self.remote_tsap@, self.size_code),
    {
        Connection::request(&self.local_tsap, &self.remote_tsap, self.size_code)
    }

    /// Take the answer that `peer` gave to [`CotpTransport::request`].
    ///
    /// # Errors
    /// Where the peer refused the connection.
    pub fn connect(&self, peer: &str, answer: Option<Tpdu>) -> (result: Result<Connection, Error>)
        ensures
            result_view(result) == opened(
                peer@,
                self.local_tsap@,
                self.remote_tsap@,
                self.size_code,
                unit_view(answer),
            ),
            result matches Ok(connection) ==> {
                &&& connection@.peer == peer@
                &&& connection@.local_tsap == self.local_tsap@
                &&& connection@.remote_tsap == self.remote_tsap@
                &&& negotiable(connection@.tpdu_size)
            },
    {
        Connection::connect(peer, &self.local_tsap, &self.remote_tsap, self.size_code, answer)
    }

    /// Answer one caller's CR, as [`Connection::accept`] does.
    ///
    /// # Errors
    /// Where the caller did not open with CR.
    pub fn accept_one(&self, peer: &str, opening: Option<Tpdu>) -> (answered: (
        Tpdu,
        Result<Connection, Error>,
    ))
        ensures
            answered.0@ == answer_to(self.size_code, unit_view(opening)),
            result_view(answered.1) == accepted(peer@, self.size_code, unit_view(opening)),
            answered.1 matches Ok(connection) ==> negotiable(connection@.tpdu_size),
    {
        Connection::accept(peer, self.size_code, opening)
    }

    /// The one message that a caller was taken for.
    ///
    /// # Errors
    /// Where the caller disconnected without a message.
    pub fn take_one(message: Option<Vec<u8>>) -> (result: Result<Vec<u8>, Error>)
        ensures
            result == (match message {
                Some(message) => Ok::<_, Error>(message),
                None => Err(Error::NoMessage),
            }),
    {
        match message {
            Some(message) => Ok(message),
            None => Err(Error::NoMessage),
        }
    }

    /// `cotp://host:102?src-tsap=..&dst-tsap=..` or `host:port` as the
    /// address and the TSAPs to call between.
    ///
    /// # Errors
    /// A TSAP in the query that is not hex.
    pub fn resolve(&self, target: &str) -> (result: Result<(String, Vec<u8>, Vec<u8>), Error>)
        ensures
            resolves_to(result, resolved(target@, self.local_tsap@, self.remote_tsap@)),
    {
        self.resolve_with(target, authority(target))
    }

    /// The same for a target whose authority, where it is a `cotp://` URI, has
    /// been found already.
    ///
    /// # Errors
    /// A TSAP in the query that is not hex.
    pub fn resolve_with(&self, target: &str, authority: Option<&str>) -> (result: Result<
        (String, Vec<u8>, Vec<u8>),
        Error,
    >)
        ensures
            resolves_to(
                result,
                resolved_with(
                    target@,
                    match authority {
                        Some(authority) => Some(authority@),
                        None => None,
                    },
                    self.local_tsap@,
                    self.remote_tsap@,
                ),
            ),
    {
        match authority {
            Some(authority) => self.resolve_authority(authority),
            None => Ok(
                (
                    target.to_owned(),
                    slice_to_vec(&self.local_tsap),
                    slice_to_vec(&self.remote_tsap),
                ),
            ),
        }
    }

    /// The same for a target's authority alone: an address, and behind a
    /// question mark the TSAPs for that one call.
    ///
    /// # Errors
    /// A TSAP in the query that is not hex.
    pub fn resolve_authority(&self, authority: &str) -> (result: Result<
        (String, Vec<u8>, Vec<u8>),
        Error,
    >)
        ensures
            resolves_to(
                result,
                resolved_authority(authority@, self.local_tsap@, self.remote_tsap@),
            ),
    {
        let (address, query) = match text::split_once(authority, '?') {
            Some(parts) => parts,
            None => (authority, ""),
        };
        proof {
            reveal_strlit("");
            assert(""@ =~= Seq::empty());
        }
        let mut local: Vec<u8> = slice_to_vec(&self.local_tsap);
        let mut remote: Vec<u8> = slice_to_vec(&self.remote_tsap);
        let mut rest: &str = query;
        let mut more: bool = true;
        let ghost all = pieces(query@, '&');
        let ghost mut done: Seq<Seq<char>> = Seq::empty();
        assert(done + all =~= all);
        while more
            invariant
                all == done + (if more {
                    pieces(rest@, '&')
                } else {
                    Seq::empty()
                }),
                first_not_hex(done) is None,
                all == pieces(address_and_query(authority@).1, '&'),
                local@ == named(done, "src-tsap"@, self.local_tsap@),
                remote@ == named(done, "dst-tsap"@, self.remote_tsap@),
            decreases
                    if more {
                        rest@.len() + 1
                    } else {
                        0
                    },
        {
            let piece: &str = match text::split_once(rest, '&') {
                Some((first, others)) => {
                    rest = others;
                    first
                },
                None => {
                    more = false;
                    rest
                },
            };
            let ghost others = if more {
                pieces(rest@, '&')
            } else {
                Seq::empty()
            };
            assert(all =~= done + (seq![piece@] + others));
            let (key, value) = match text::split_once(piece, '=') {
                Some(parts) => parts,
                None => (piece, ""),
            };
            proof {
                reveal_strlit("");
                assert(""@ =~= Seq::empty());
                lemma_first_not_hex_joins(done, seq![piece@] + others);
                lemma_first_not_hex_joins(done, seq![piece@]);
                assert((seq![piece@] + others).drop_first() =~= others);
                assert(first_not_hex(seq![piece@].drop_first()) is None);
                assert(done + seq![piece@] =~= done.push(piece@));
                assert(done.push(piece@).drop_last() =~= done);
                lemma_keys_differ();
            }
            let src: bool = text::same(key, "src-tsap");
            let dst: bool = text::same(key, "dst-tsap");
            if src || dst {
                match hex::decode(value) {
                    None => {
                        return Err(Error::NotHex(value.to_owned()));
                    },
                    Some(tsap) => if src {
                        local = tsap;
                    } else {
                        remote = tsap;
                    },
                }
            }
            proof {
                done = done.push(piece@);
                assert(all =~= done + others);
            }
        }
        assert(done =~= all);
        Ok((address.to_owned(), local, remote))
    }
}

/// The authority of a `cotp://` target, or `None` where it is not one.
fn authority(target: &str) -> (authority: Option<&str>)
    ensures
        authority_of(target@) == (match authority {
            Some(authority) => Some(authority@),
            None => None,
        }),
{
    match text::strip_prefix(target, "cotp://") {
        Some(rest) => match text::split_once(rest, '/') {
            Some((authority, _)) => Some(authority),
            None => {
                proof {
                    text::lemma_find_bounds(rest@, '/');
                    assert(rest@.take(rest@.len() as int) =~= rest@);
                }
                Some(rest)
            },
        },
        None => None,
    }
}

/// The two keys that a query may name are not the same.
proof fn lemma_keys_differ()
    ensures
        "src-tsap"@ != "dst-tsap"@,
{
    reveal_strlit("src-tsap");
    reveal_strlit("dst-tsap");
    assert("src-tsap"@[0] != "dst-tsap"@[0]);
}

/// Behind TSAPs that are all hex, the first that is not is the first of
/// the others that is not.
proof fn lemma_first_not_hex_joins(done: Seq<Seq<char>>, others: Seq<Seq<char>>)
    requires
        first_not_hex(done) is None,
    ensures
        first_not_hex(done + others) == first_not_hex(others),
    decreases done.len(),
{
    if done.len() == 0 {
        assert(done + others =~= others);
    } else {
        assert((done + others).drop_first() =~= done.drop_first() + others);
        lemma_first_not_hex_joins(done.drop_first(), others);
    }
}

/// A piece of a query whose key names no TSAP changes nothing, whatever its
/// value and wherever it stands.
pub proof fn lemma_other_key_changes_nothing(
    before: Seq<Seq<char>>,
    piece: Seq<char>,
    behind: Seq<Seq<char>>,
    key: Seq<char>,
    otherwise: Seq<u8>,
)
    requires
        !names_tsap(key_and_value(piece).0),
        names_tsap(key),
    ensures
        first_not_hex(before + (seq![piece] + behind)) == first_not_hex(before + behind),
        named(before + (seq![piece] + behind), key, otherwise) == named(
            before + behind,
            key,
            otherwise,
        ),
{
    lemma_first_not_hex_skips(before, piece, behind);
    lemma_named_skips(before, piece, behind, key, otherwise);
}

/// The first TSAP that is not hex is none that is.
proof fn lemma_first_not_hex_skips(
    before: Seq<Seq<char>>,
    piece: Seq<char>,
    behind: Seq<Seq<char>>,
)
    requires
        !bad_tsap(piece),
    ensures
        first_not_hex(before + (seq![piece] + behind)) == first_not_hex(before + behind),
    decreases before.len(),
{
    let with = before + (seq![piece] + behind);
    let without = before + behind;
    if before.len() == 0 {
        assert(with.drop_first() =~= behind);
        assert(without =~= behind);
    } else {
        assert(with.drop_first() =~= before.drop_first() + (seq![piece] + behind));
        assert(without.drop_first() =~= before.drop_first() + behind);
        lemma_first_not_hex_skips(before.drop_first(), piece, behind);
    }
}

/// A key's last TSAP is not under another key.
proof fn lemma_named_skips(
    before: Seq<Seq<char>>,
    piece: Seq<char>,
    behind: Seq<Seq<char>>,
    key: Seq<char>,
    otherwise: Seq<u8>,
)
    requires
        key_and_value(piece).0 != key,
    ensures
        named(before + (seq![piece] + behind), key, otherwise) == named(
            before + behind,
            key,
            otherwise,
        ),
    decreases behind.len(),
{
    let with = before + (seq![piece] + behind);
    let without = before + behind;
    if behind.len() == 0 {
        assert(with.drop_last() =~= before);
        assert(without =~= before);
    } else {
        assert(with.drop_last() =~= before + (seq![piece] + behind.drop_last()));
        assert(without.drop_last() =~= before + behind.drop_last());
        lemma_named_skips(before, piece, behind.drop_last(), key, otherwise);
    }
}

/// A key, an equals sign and bytes in hex are read as such.
proof fn lemma_pair(key: Seq<char>, bytes: Seq<u8>)
    requires
        !key.contains('='),
    ensures
        ({
            let piece = key + seq!['='] + hex::encoded(bytes);
            &&& key_and_value(piece) == (key, hex::encoded(bytes))
            &&& hex::decoded(key_and_value(piece).1) == Some(bytes)
        }),
{
    let piece = key + seq!['='] + hex::encoded(bytes);
    assert forall|i: int| 0 <= i < key.len() implies piece[i] != '=' by {
        assert(key.contains(key[i]));
    }
    lemma_find(piece, '=', key.len() as int);
    assert(piece.take(key.len() as int) =~= key);
    assert(piece.skip(key.len() + 1int) =~= hex::encoded(bytes));
    hex::lemma_round_trip(bytes);
}

/// A query that names both TSAPs, the calling one first.
spec fn query_of(src_tsap: Seq<u8>, dst_tsap: Seq<u8>) -> Seq<char> {
    "src-tsap"@ + seq!['='] + hex::encoded(src_tsap) + seq!['&'] + ("dst-tsap"@ + seq!['=']
        + hex::encoded(dst_tsap))
}

/// Such a query is two pieces, which name the two TSAPs.
proof fn lemma_query_names(
    src_tsap: Seq<u8>,
    dst_tsap: Seq<u8>,
    local_tsap: Seq<u8>,
    remote_tsap: Seq<u8>,
)
    ensures
        ({
            let query = pieces(query_of(src_tsap, dst_tsap), '&');
            &&& first_not_hex(query) is None
            &&& named(query, "src-tsap"@, local_tsap) == src_tsap
            &&& named(query, "dst-tsap"@, remote_tsap) == dst_tsap
        }),
{
    let src = "src-tsap"@ + seq!['='] + hex::encoded(src_tsap);
    let dst = "dst-tsap"@ + seq!['='] + hex::encoded(dst_tsap);
    let text = query_of(src_tsap, dst_tsap);
    let query = pieces(text, '&');
    assert(query == seq![src, dst] && key_and_value(src) == ("src-tsap"@, hex::encoded(src_tsap))
        && key_and_value(dst) == ("dst-tsap"@, hex::encoded(dst_tsap))) by {
        reveal_strlit("src-tsap");
        reveal_strlit("dst-tsap");
        lemma_pair("src-tsap"@, src_tsap);
        lemma_pair("dst-tsap"@, dst_tsap);
        hex::lemma_only_digits(src_tsap);
        hex::lemma_only_digits(dst_tsap);
        lemma_find(text, '&', src.len() as int);
        assert(text.take(src.len() as int) =~= src);
        assert(text.skip(src.len() + 1int) =~= dst);
        lemma_find(dst, '&', dst.len() as int);
        assert(pieces(dst, '&') =~= seq![dst]);
        assert(query =~= seq![src, dst]);
    }
    hex::lemma_round_trip(src_tsap);
    hex::lemma_round_trip(dst_tsap);
    lemma_keys_differ();
    assert(query.drop_first() =~= seq![dst]);
    assert(query.drop_last() =~= seq![src]);
    reveal_with_fuel(first_not_hex, 3);
    reveal_with_fuel(named, 3);
}

/// An origin URI is a target: it resolves to the peer's address and to the
/// TSAPs that the peer called between, the peer's own first, whatever the
/// configured ones. An address has neither a slash nor a question mark.
pub proof fn lemma_origin_resolves(
    connection: ConnectionView,
    local_tsap: Seq<u8>,
    remote_tsap: Seq<u8>,
)
    requires
        !connection.peer.contains('/'),
        !connection.peer.contains('?'),
    ensures
        resolved(origin_of(connection), local_tsap, remote_tsap) == Ok::<_, Seq<char>>(
            (connection.peer, connection.remote_tsap, connection.local_tsap),
        ),
{
    let peer = connection.peer;
    let query = query_of(connection.remote_tsap, connection.local_tsap);
    let authority = peer + seq!['?'] + query;
    let uri = origin_of(connection);
    lemma_query_names(connection.remote_tsap, connection.local_tsap, local_tsap, remote_tsap);
    assert(authority_of(uri) == Some(authority)) by {
        reveal_strlit("cotp://");
        reveal_strlit("?src-tsap=");
        reveal_strlit("&dst-tsap=");
        reveal_strlit("src-tsap");
        reveal_strlit("dst-tsap");
        hex::lemma_only_digits(connection.remote_tsap);
        hex::lemma_only_digits(connection.local_tsap);
        assert(uri =~= "cotp://"@ + authority);
        assert(uri.skip("cotp://"@.len() as int) =~= authority);
        assert forall|i: int| 0 <= i < query.len() implies query[i] != '/' by {}
        assert forall|i: int| 0 <= i < authority.len() implies authority[i] != '/' by {
            if i < peer.len() {
                assert(peer.contains(peer[i]));
            } else if i > peer.len() {
                assert(authority[i] == query[i - peer.len() - 1]);
            }
        }
        lemma_find(authority, '/', authority.len() as int);
        assert(authority.take(authority.len() as int) =~= authority);
    }
    assert(address_and_query(authority) == (peer, query)) by {
        assert forall|i: int| 0 <= i < peer.len() implies authority[i] != '?' by {
            assert(peer.contains(peer[i]));
        }
        lemma_find(authority, '?', peer.len() as int);
        assert(authority.take(peer.len() as int) =~= peer);
        assert(authority.skip(peer.len() + 1int) =~= query);
    }
}

/// One piece of a query: a key, and behind an equals sign a value, where it
/// has one.
pub open spec fn pair_text(pair: (Seq<char>, Option<Seq<char>>)) -> Seq<char> {
    match pair.1 {
        Some(value) => pair.0 + seq!['='] + value,
        None => pair.0,
    }
}

/// A query: its pieces, with an ampersand between each two.
pub open spec fn query_text(pairs: Seq<(Seq<char>, Option<Seq<char>>)>) -> Seq<char> {
    joined_by(Seq::new(pairs.len(), |i: int| pair_text(pairs[i])), '&')
}

/// The value of one piece of a query, empty where it has none.
pub open spec fn pair_value(pair: (Seq<char>, Option<Seq<char>>)) -> Seq<char> {
    match pair.1 {
        Some(value) => value,
        None => Seq::empty(),
    }
}

/// Whether the piece at `i` is the last that has this key.
pub open spec fn last_named_at(
    pairs: Seq<(Seq<char>, Option<Seq<char>>)>,
    key: Seq<char>,
    i: int,
) -> bool {
    &&& 0 <= i < pairs.len()
    &&& pairs[i].0 == key
    &&& forall|j: int| i < j < pairs.len() ==> (#[trigger] pairs[j]).0 != key
}

/// Whether no piece has this key.
pub open spec fn never_named(pairs: Seq<(Seq<char>, Option<Seq<char>>)>, key: Seq<char>) -> bool {
    forall|j: int| 0 <= j < pairs.len() ==> (#[trigger] pairs[j]).0 != key
}

/// Whether the piece at `i` has one of the two keys and a value that is not
/// hex.
pub open spec fn not_hex_at(pairs: Seq<(Seq<char>, Option<Seq<char>>)>, i: int) -> bool {
    &&& 0 <= i < pairs.len()
    &&& pairs[i].0 == "src-tsap"@ || pairs[i].0 == "dst-tsap"@
    &&& hex::decoded(pair_value(pairs[i])) is None
}

/// Any query, whatever keys it has and in whatever order: the first value
/// under one of the two keys that is not hex is refused. Where there is none,
/// the address is what stands before the question mark, this side's TSAP is
/// the value of the last `src-tsap` and the far end's that of the last
/// `dst-tsap`, each the configured one where the query has no such key.
pub proof fn lemma_any_query_resolves(
    address: Seq<char>,
    pairs: Seq<(Seq<char>, Option<Seq<char>>)>,
    local_tsap: Seq<u8>,
    remote_tsap: Seq<u8>,
)
    requires
        !address.contains('?'),
        0 < pairs.len(),
        forall|i: int|
            0 <= i < pairs.len() ==> !(#[trigger] pairs[i]).0.contains('=')
                && !pairs[i].0.contains('&') && !pair_value(pairs[i]).contains('&'),
    ensures
        ({
            let result = resolved_authority(
                address + seq!['?'] + query_text(pairs),
                local_tsap,
                remote_tsap,
            );
            &&& forall|i: int|
                #[trigger] not_hex_at(pairs, i) && (forall|j: int|
                    0 <= j < i ==> !#[trigger] not_hex_at(pairs, j)) ==> result == Err::<
                    (Seq<char>, Seq<u8>, Seq<u8>),
                    _,
                >(pair_value(pairs[i]))
            &&& (forall|i: int| !#[trigger] not_hex_at(pairs, i)) ==> {
                &&& result is Ok
                &&& result->Ok_0.0 == address
                &&& forall|i: int| #[trigger]
                    last_named_at(pairs, "src-tsap"@, i) ==> hex::decoded(pair_value(pairs[i]))
                        == Some(result->Ok_0.1)
                &&& never_named(pairs, "src-tsap"@) ==> result->Ok_0.1 == local_tsap
                &&& forall|i: int| #[trigger]
                    last_named_at(pairs, "dst-tsap"@, i) ==> hex::decoded(pair_value(pairs[i]))
                        == Some(result->Ok_0.2)
                &&& never_named(pairs, "dst-tsap"@) ==> result->Ok_0.2 == remote_tsap
            }
        }),
{
    let texts = Seq::new(pairs.len(), |i: int| pair_text(pairs[i]));
    let authority = address + seq!['?'] + query_text(pairs);
    assert forall|i: int| 0 <= i < texts.len() implies !(#[trigger] texts[i]).contains('&')
        && key_and_value(texts[i]) == (pairs[i].0, pair_value(pairs[i])) by {
        lemma_pair_text(pairs[i]);
    }
    lemma_pieces(texts, '&');
    lemma_halves(address, '?', query_text(pairs));
    assert forall|i: int| #[trigger] not_hex_at(pairs, i) && (forall|j: int|
        0 <= j < i ==> !#[trigger] not_hex_at(pairs, j)) implies first_not_hex(texts) == Some(
        pair_value(pairs[i]),
    ) by {
        assert(bad_tsap(texts[i]));
        assert forall|j: int| 0 <= j < i implies !bad_tsap(#[trigger] texts[j]) by {
            assert(!not_hex_at(pairs, j));
        }
        lemma_first_not_hex_at(texts, i);
    }
    if forall|i: int| !#[trigger] not_hex_at(pairs, i) {
        assert forall|j: int| 0 <= j < texts.len() implies !bad_tsap(#[trigger] texts[j]) by {
            assert(!not_hex_at(pairs, j));
        }
        lemma_all_hex(texts);
        lemma_last_named(pairs, texts, "src-tsap"@, local_tsap);
        lemma_last_named(pairs, texts, "dst-tsap"@, remote_tsap);
        assert forall|i: int| #[trigger] last_named_at(pairs, "src-tsap"@, i) implies hex::decoded(
            pair_value(pairs[i]),
        ) == Some(named(texts, "src-tsap"@, local_tsap)) by {
            assert(!not_hex_at(pairs, i));
        }
        assert forall|i: int| #[trigger] last_named_at(pairs, "dst-tsap"@, i) implies hex::decoded(
            pair_value(pairs[i]),
        ) == Some(named(texts, "dst-tsap"@, remote_tsap)) by {
            assert(!not_hex_at(pairs, i));
        }
    }
}

/// A piece is read for its key and its value, and has no ampersand where
/// they have none.
proof fn lemma_pair_text(pair: (Seq<char>, Option<Seq<char>>))
    requires
        !pair.0.contains('='),
        !pair.0.contains('&'),
        !pair_value(pair).contains('&'),
    ensures
        !pair_text(pair).contains('&'),
        key_and_value(pair_text(pair)) == (pair.0, pair_value(pair)),
{
    let text = pair_text(pair);
    match pair.1 {
        Some(value) => {
            lemma_halves(pair.0, '=', value);
            assert forall|i: int| 0 <= i < text.len() implies text[i] != '&' by {
                if i < pair.0.len() {
                    assert(pair.0.contains(pair.0[i]));
                } else if i > pair.0.len() {
                    assert(value.contains(value[i - pair.0.len() - 1]));
                }
            }
        },
        None => {
            lemma_no_halves(pair.0, '=');
        },
    }
}

/// The first TSAP that is not hex is the one with none before it.
proof fn lemma_first_not_hex_at(query: Seq<Seq<char>>, i: int)
    requires
        0 <= i < query.len(),
        bad_tsap(query[i]),
        forall|j: int| 0 <= j < i ==> !bad_tsap(#[trigger] query[j]),
    ensures
        first_not_hex(query) == Some(key_and_value(query[i]).1),
    decreases query.len(),
{
    if i > 0 {
        let others = query.drop_first();
        assert(!bad_tsap(query[0]));
        assert forall|j: int| 0 <= j < i - 1 implies !bad_tsap(#[trigger] others[j]) by {
            assert(others[j] == query[j + 1]);
        }
        lemma_first_not_hex_at(others, i - 1);
    }
}

/// Where all TSAPs are hex, none is the first that is not.
proof fn lemma_all_hex(query: Seq<Seq<char>>)
    requires
        forall|j: int| 0 <= j < query.len() ==> !bad_tsap(#[trigger] query[j]),
    ensures
        first_not_hex(query) is None,
    decreases query.len(),
{
    if query.len() > 0 {
        let others = query.drop_first();
        assert(!bad_tsap(query[0]));
        assert forall|j: int| 0 <= j < others.len() implies !bad_tsap(#[trigger] others[j]) by {
            assert(others[j] == query[j + 1]);
        }
        lemma_all_hex(others);
    }
}

/// The TSAP that a query gives for a key is under the last such key.
proof fn lemma_last_named(
    pairs: Seq<(Seq<char>, Option<Seq<char>>)>,
    texts: Seq<Seq<char>>,
    key: Seq<char>,
    otherwise: Seq<u8>,
)
    requires
        texts.len() == pairs.len(),
        forall|i: int|
            0 <= i < texts.len() ==> key_and_value(#[trigger] texts[i]) == (
                pairs[i].0,
                pair_value(pairs[i]),
            ),
    ensures
        forall|i: int| #[trigger]
            last_named_at(pairs, key, i) ==> named(texts, key, otherwise) == hex::decoded(
                pair_value(pairs[i]),
            )->0,
        never_named(pairs, key) ==> named(texts, key, otherwise) == otherwise,
    decreases pairs.len(),
{
    if pairs.len() > 0 {
        let fewer = pairs.drop_last();
        let others = texts.drop_last();
        assert(key_and_value(texts[texts.len() - 1]) == (
            pairs.last().0,
            pair_value(pairs.last()),
        ));
        assert forall|i: int| 0 <= i < others.len() implies key_and_value(#[trigger] others[i]) == (
            fewer[i].0,
            pair_value(fewer[i]),
        ) by {
            assert(others[i] == texts[i]);
        }
        lemma_last_named(fewer, others, key, otherwise);
        if pairs.last().0 != key {
            assert forall|i: int| #[trigger] last_named_at(pairs, key, i) implies named(
                texts,
                key,
                otherwise,
            ) == hex::decoded(pair_value(pairs[i]))->0 by {
                assert(last_named_at(fewer, key, i));
            }
            if never_named(pairs, key) {
                assert(never_named(fewer, key));
            }
        } else {
            assert forall|i: int| #[trigger] last_named_at(pairs, key, i) implies i == pairs.len()
                - 1 by {}
            assert(!never_named(pairs, key));
        }
    }
}

/// An authority without a question mark is an address, and the configured
/// TSAPs are called between.
pub proof fn lemma_bare_authority_resolves(
    authority: Seq<char>,
    local_tsap: Seq<u8>,
    remote_tsap: Seq<u8>,
)
    requires
        !authority.contains('?'),
    ensures
        resolved_authority(authority, local_tsap, remote_tsap) == Ok::<_, Seq<char>>(
            (authority, local_tsap, remote_tsap),
        ),
{
    let nothing = Seq::<char>::empty();
    lemma_no_halves(authority, '?');
    lemma_no_halves(nothing, '&');
    lemma_no_halves(nothing, '=');
    let query = seq![nothing];
    assert(key_and_value(nothing) == (nothing, nothing));
    assert(nothing != "src-tsap"@ && nothing != "dst-tsap"@) by {
        reveal_strlit("src-tsap");
        reveal_strlit("dst-tsap");
    }
    assert(query.drop_first().len() == 0);
    assert(query.drop_last().len() == 0);
    reveal_with_fuel(first_not_hex, 2);
    reveal_with_fuel(named, 2);
}

/// A target that does not begin with `cotp://` is an address as a whole, and
/// the configured TSAPs are called between.
pub proof fn lemma_other_target_is_an_address(
    target: Seq<char>,
    local_tsap: Seq<u8>,
    remote_tsap: Seq<u8>,
)
    requires
        !"cotp://"@.is_prefix_of(target),
    ensures
        resolved(target, local_tsap, remote_tsap) == Ok::<_, Seq<char>>(
            (target, local_tsap, remote_tsap),
        ),
{
}

/// A target resolves as the authority does that stands in it between
/// `cotp://` and the first slash, and what stands from the slash on does not
/// matter.
pub proof fn lemma_target_resolves_as_its_authority(
    authority: Seq<char>,
    path: Seq<char>,
    local_tsap: Seq<u8>,
    remote_tsap: Seq<u8>,
)
    requires
        !authority.contains('/'),
        path.len() == 0 || path[0] == '/',
    ensures
        resolved("cotp://"@ + authority + path, local_tsap, remote_tsap) == resolved_authority(
            authority,
            local_tsap,
            remote_tsap,
        ),
{
    let target = "cotp://"@ + authority + path;
    let rest = authority + path;
    assert(target.skip("cotp://"@.len() as int) =~= rest);
    assert("cotp://"@ =~= target.subrange(0, "cotp://"@.len() as int));
    assert forall|i: int| 0 <= i < authority.len() implies rest[i] != '/' by {
        assert(authority.contains(authority[i]));
    }
    lemma_find(rest, '/', authority.len() as int);
    assert(rest.take(authority.len() as int) =~= authority);
}

/// An authority that has been found already is all that counts of a target;
/// a target without one is an address, whatever it begins with.
pub proof fn lemma_found_authority_counts(
    target: Seq<char>,
    authority: Seq<char>,
    local_tsap: Seq<u8>,
    remote_tsap: Seq<u8>,
)
    ensures
        resolved_with(target, Some(authority), local_tsap, remote_tsap) == resolved_authority(
            authority,
            local_tsap,
            remote_tsap,
        ),
        resolved_with(target, None, local_tsap, remote_tsap) == Ok::<_, Seq<char>>(
            (target, local_tsap, remote_tsap),
        ),
{
}

/// The order of the keys does not matter: a target that names both TSAPs
/// resolves to the address and the two of them, this side's first, whichever
/// it names first and whatever the configured ones.
pub proof fn lemma_key_order_does_not_matter(
    address: Seq<char>,
    src_tsap: Seq<u8>,
    dst_tsap: Seq<u8>,
    local_tsap: Seq<u8>,
    remote_tsap: Seq<u8>,
)
    requires
        !address.contains('/'),
        !address.contains('?'),
    ensures
        resolved(
            "cotp://"@ + address + "?src-tsap="@ + hex::encoded(src_tsap) + "&dst-tsap="@
                + hex::encoded(dst_tsap),
            local_tsap,
            remote_tsap,
        ) == Ok::<_, Seq<char>>((address, src_tsap, dst_tsap)),
        resolved(
            "cotp://"@ + address + "?dst-tsap="@ + hex::encoded(dst_tsap) + "&src-tsap="@
                + hex::encoded(src_tsap),
            local_tsap,
            remote_tsap,
        ) == Ok::<_, Seq<char>>((address, src_tsap, dst_tsap)),
{
    let src = ("src-tsap"@, Some(hex::encoded(src_tsap)));
    let dst = ("dst-tsap"@, Some(hex::encoded(dst_tsap)));
    hex::lemma_round_trip(src_tsap);
    hex::lemma_round_trip(dst_tsap);
    lemma_keys_differ();
    lemma_src_first(address, src, dst);
    lemma_dst_first(address, src, dst);
    lemma_two_keys_resolve(address, src, dst, local_tsap, remote_tsap);
    lemma_two_keys_resolve(address, dst, src, local_tsap, remote_tsap);
    assert(last_named_at(seq![src, dst], "src-tsap"@, 0));
    assert(last_named_at(seq![src, dst], "dst-tsap"@, 1));
    assert(last_named_at(seq![dst, src], "dst-tsap"@, 0));
    assert(last_named_at(seq![dst, src], "src-tsap"@, 1));
}

/// A target that names the calling TSAP first, by its pieces.
proof fn lemma_src_first(
    address: Seq<char>,
    src: (Seq<char>, Option<Seq<char>>),
    dst: (Seq<char>, Option<Seq<char>>),
)
    requires
        src.0 == "src-tsap"@,
        dst.0 == "dst-tsap"@,
        src.1 is Some,
        dst.1 is Some,
    ensures
        "cotp://"@ + address + "?src-tsap="@ + src.1->0 + "&dst-tsap="@ + dst.1->0 == "cotp://"@ + (
        address + seq!['?'] + query_text(seq![src, dst])) + Seq::empty(),
{
    lemma_two_pairs(src, dst);
    assert("?src-tsap="@ == seq!['?'] + "src-tsap"@ + seq!['=']) by {
        reveal_strlit("?src-tsap=");
        reveal_strlit("src-tsap");
    }
    assert("&dst-tsap="@ == seq!['&'] + "dst-tsap"@ + seq!['=']) by {
        reveal_strlit("&dst-tsap=");
        reveal_strlit("dst-tsap");
    }
}

/// A target that names the called TSAP first, by its pieces.
proof fn lemma_dst_first(
    address: Seq<char>,
    src: (Seq<char>, Option<Seq<char>>),
    dst: (Seq<char>, Option<Seq<char>>),
)
    requires
        src.0 == "src-tsap"@,
        dst.0 == "dst-tsap"@,
        src.1 is Some,
        dst.1 is Some,
    ensures
        "cotp://"@ + address + "?dst-tsap="@ + dst.1->0 + "&src-tsap="@ + src.1->0 == "cotp://"@ + (
        address + seq!['?'] + query_text(seq![dst, src])) + Seq::empty(),
{
    lemma_two_pairs(dst, src);
    assert("?dst-tsap="@ == seq!['?'] + "dst-tsap"@ + seq!['=']) by {
        reveal_strlit("?dst-tsap=");
        reveal_strlit("dst-tsap");
    }
    assert("&src-tsap="@ == seq!['&'] + "src-tsap"@ + seq!['=']) by {
        reveal_strlit("&src-tsap=");
        reveal_strlit("src-tsap");
    }
}

/// A query of two pieces is the one, an ampersand and the other.
proof fn lemma_two_pairs(
    one: (Seq<char>, Option<Seq<char>>),
    other: (Seq<char>, Option<Seq<char>>),
)
    ensures
        query_text(seq![one, other]) == pair_text(one) + seq!['&'] + pair_text(other),
{
    let texts = Seq::new(2, |i: int| pair_text(seq![one, other][i]));
    assert(texts.drop_first() =~= seq![pair_text(other)]);
    reveal_with_fuel(joined_by, 2);
}

/// A target with two keys, both of TSAPs in hex, resolves by them.
proof fn lemma_two_keys_resolve(
    address: Seq<char>,
    one: (Seq<char>, Option<Seq<char>>),
    other: (Seq<char>, Option<Seq<char>>),
    local_tsap: Seq<u8>,
    remote_tsap: Seq<u8>,
)
    requires
        !address.contains('/'),
        !address.contains('?'),
        one.0 == "src-tsap"@ || one.0 == "dst-tsap"@,
        other.0 == "src-tsap"@ || other.0 == "dst-tsap"@,
        exists|bytes: Seq<u8>| one.1 == Some(#[trigger] hex::encoded(bytes)),
        exists|bytes: Seq<u8>| other.1 == Some(#[trigger] hex::encoded(bytes)),
    ensures
        ({
            let pairs = seq![one, other];
            let result = resolved(
                "cotp://"@ + (address + seq!['?'] + query_text(pairs)) + Seq::empty(),
                local_tsap,
                remote_tsap,
            );
            &&& result is Ok
            &&& result->Ok_0.0 == address
            &&& forall|i: int| #[trigger]
                last_named_at(pairs, "src-tsap"@, i) ==> hex::decoded(pair_value(pairs[i]))
                    == Some(result->Ok_0.1)
            &&& forall|i: int| #[trigger]
                last_named_at(pairs, "dst-tsap"@, i) ==> hex::decoded(pair_value(pairs[i]))
                    == Some(result->Ok_0.2)
        }),
{
    let pairs = seq![one, other];
    let first = choose|bytes: Seq<u8>| one.1 == Some(#[trigger] hex::encoded(bytes));
    let second = choose|bytes: Seq<u8>| other.1 == Some(#[trigger] hex::encoded(bytes));
    let authority = address + seq!['?'] + query_text(pairs);
    hex::lemma_round_trip(first);
    hex::lemma_round_trip(second);
    hex::lemma_only_digits(first);
    hex::lemma_only_digits(second);
    lemma_plain(one, hex::encoded(first));
    lemma_plain(other, hex::encoded(second));
    lemma_two_pairs(one, other);
    assert forall|i: int| 0 <= i < authority.len() implies authority[i] != '/' by {
        let query = query_text(pairs);
        if i < address.len() {
            assert(address.contains(address[i]));
        } else if i > address.len() {
            let j: int = i - address.len() - 1;
            assert(authority[i] == query[j]);
            if j < pair_text(one).len() {
                assert(pair_text(one).contains(pair_text(one)[j]));
            } else if j > pair_text(one).len() {
                let k: int = j - pair_text(one).len() - 1;
                assert(query[j] == pair_text(other)[k]);
                assert(pair_text(other).contains(pair_text(other)[k]));
            }
        }
    }
    lemma_any_query_resolves(address, pairs, local_tsap, remote_tsap);
    lemma_target_resolves_as_its_authority(authority, Seq::empty(), local_tsap, remote_tsap);
}

/// A piece with one of the two keys and a value in digits has neither a slash
/// nor an ampersand, and its key no equals sign.
proof fn lemma_plain(pair: (Seq<char>, Option<Seq<char>>), value: Seq<char>)
    requires
        pair.0 == "src-tsap"@ || pair.0 == "dst-tsap"@,
        pair.1 == Some(value),
        forall|i: int|
            0 <= i < value.len() ==> '0' <= #[trigger] value[i] <= '9' || 'a' <= value[i] <= 'f',
    ensures
        !pair.0.contains('='),
        !pair.0.contains('&'),
        !value.contains('&'),
        !pair_text(pair).contains('/'),
{
    reveal_strlit("src-tsap");
    reveal_strlit("dst-tsap");
}

/// A call resolves to a result that says what is expected of it and to no
/// other: the same address and the same TSAPs, or the refusal of the same
/// value.
pub proof fn lemma_resolves_to(
    result: Result<(String, Vec<u8>, Vec<u8>), Error>,
    expected: Result<(Seq<char>, Seq<u8>, Seq<u8>), Seq<char>>,
)
    requires
        resolves_to(result, expected),
    ensures
        result is Ok <==> expected is Ok,
        result matches Ok(call) ==> {
            &&& call.0@ == expected->Ok_0.0
            &&& call.1@ == expected->Ok_0.1
            &&& call.2@ == expected->Ok_0.2
        },
        result matches Err(error) ==> error is NotHex && error->NotHex_0@ == expected->Err_0,
{
}

} // verus!
