# cotp

ISO transport class 0 over TCP, RFC 1006: TPKT framing, connect request and
confirm with TSAPs, data TPDUs segmented and reassembled. The carrier that S7
and other ISO-on-TCP protocols ride on, verified with Verus.

The library in `src/` holds the protocol and no socket. What is to be sent is
put on a buffer; what was received comes in as bytes, and the library says how
many more it needs.

| module       | what it holds                                               |
|--------------|-------------------------------------------------------------|
| `tpkt`       | the four-byte frame around each TPDU                        |
| `tpdu`       | CR, CC, DT and DR as bytes, and the TPDU sizes              |
| `connection` | the handshake, segmentation, reassembly, the origin URI     |
| `transport`  | the configuration, and how a target is resolved             |
| `stream`     | what a whole stream of bytes comes to, as laws              |
| `hex`        | TSAPs as hex digits                                         |
| `text`       | cutting up text                                             |
| `error`      | what is refused                                             |

`app/` puts the library on TCP sockets. It needs the `transport` crate, which
supplies the sockets, the transport traits and the error type.
