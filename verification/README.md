# wakala

The core of a mail gateway, and of the coordinator economics around it, written in
[Verus](https://github.com/verus-lang/verus): executable Rust whose behaviour is stated in contracts
and proved.

A gateway takes legacy mail for a domain, checks it, seals it to the recipient's key, attests that it
came through, and hands it to the mesh. A sender is told that a message was accepted only once the
mesh has taken durable custody of it.

## Layout

| where | what |
| --- | --- |
| `src/inbound.rs`, `mx_session.rs`, `mx_conn.rs`, `abuse.rs`, `directory.rs`, `mote.rs`, `attestation.rs`, `provenance.rs`, `mesh.rs` | the way in: sessions, policies, recipients, sealing, attestations, delivery |
| `src/dkim.rs`, `dkim_laws.rs`, `rfc5322.rs` | DKIM signatures over header fields and bodies |
| `src/dns.rs`, `idn.rs`, `ip.rs`, `mx.rs`, `mta_sts.rs`, `net.rs`, `http.rs`, `pem.rs` | codecs and decisions of the network side |
| `src/authz.rs`, `quota.rs`, `vanity.rs`, `alias_map.rs`, `forwarded_addr.rs` | who may relay, how much, and under which names |
| `src/multidomain.rs`, `admin.rs`, `json.rs` | a gateway for many domains and its administration |
| `src/legacy_net.rs`, `imap_access.rs`, `smtp.rs` | access for older mail programs |
| `src/cbor.rs`, `descriptor.rs`, `tariff.rs`, `receipt.rs`, `meter.rs`, `stake.rs` | signed descriptors, prices and receipts |
| `src/kinds.rs`, `visibility.rs`, `coordinator.rs`, `arbiter.rs`, `compute.rs` | the kinds of coordinator and what they answer for |
| `src/identity.rs`, `substrate.rs`, `names.rs`, `text.rs`, `seqmap.rs`, `sorting.rs`, `b64.rs`, `base32.rs`, `bytes.rs`, `model.rs`, `random.rs` | what the rest is built on |
| `app/` | the program around the library: sockets, TLS, files, the environment |
| `tests/` | tests that run the library with the outside crates |

## How to read it

A contract speaks of views: a `String` is a `Seq<char>`, a `Vec<u8>` a `Seq<u8>`, and a type of the
library is its `...Model`. For each operation there is a spec function that says what comes of it, and
the function's `ensures` equates the two. What holds of several operations together stands in proof
functions named `law_...`.

What an outside crate does is reached through a few functions marked `external_body`. The doc comment
of each says which outside function it calls and what is taken on trust.
