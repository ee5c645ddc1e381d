# vapx_scan

A scanner that finds Axis network devices on the local network (SSDP,
ONVIF WS-Discovery, mDNS, a TCP scan of the local subnets, and the VAPIX
`basicdeviceinfo.cgi` API), written as a Verus-verified library with a thin
command-line program around it.

## Layout

- `src/` — the verified library. Every function has a contract over
  mathematical models (`Seq`, `Map`, views of the data types):
  - `text.rs`: searching (also ignoring ASCII case), trimming and splitting
    on `char` sequences; the case conversions and lossy UTF-8 decoding of std behind
    trusted wrappers with named results.
  - `ipv4.rs`: dotted-decimal addresses and IPv4 networks (the host range
    of a prefix); network text is read by `ipnet`.
  - `model.rs`: the device record, merging records of one address, and the
    address-ordered device lists, with the merge law.
  - `arp.rs`, `classify.rs`: the ARP table and the confidence score.
  - `discovery/`: the SSDP, ONVIF and mDNS payloads, the reading of their
    answers and the device lists they give; the send schedule.
  - `probe.rs`, `enrich.rs`: what HTTP answers mean (markers, titles, the
    fields of `basicdeviceinfo.cgi`), and the steps of the VAPIX pass.
  - `scan.rs`, `netutil.rs`: subnet hosts, the devices of a scan, and the
    local networks read from interface addresses.
  - `output.rs`, `cli.rs`: the text table, the port list and the options.
- `tests/` — tests of the library on concrete values.
- `app/` — the program: arguments, sockets, HTTP requests, the ARP file,
  JSON and printing. It hands plain values to the library and takes plain
  values back.
