# mdns-reflector

A multicast DNS reflector: it relays mDNS traffic between network
interfaces, subject to a rate limit, loop prevention, service-type filters
and zone rules, and caps the TTLs of reflected records.

- `src/` is the library, written in Verus with its behaviour stated in
  contracts and proved: configuration and its validation (`config`),
  command-line decisions (`cli`), the DNS message as read through
  `trust_dns_proto` (`dns`), mDNS packets (`mdns`), interfaces and sockets
  to open (`network`), filters and zones (`policy`), the rate limiter
  (`rate`), the caches (`cache`) and the reflection engine (`reflector`).
- `app/` is the program around it: command-line parsing with clap, the TOML
  configuration file, interface enumeration, sockets, the tokio runtime and
  logging.
- `tests/` holds the tests.
