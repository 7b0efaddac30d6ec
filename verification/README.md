# pcap-analyzer

Reads capture files of SCTP traffic, as WebRTC data channels make it, and shows what travels on the
streams: messages with their flags and protocol names, and requests to reset streams.

`src/` is the library, verified with Verus:

- `varint`, `framing`: variable length integers, and records behind their lengths
- `multistream`: the protocol names in a payload
- `webrtc_proto`, `webrtc`: the protobuf messages on a data channel
- `sctp`: chunks and parameters inside SCTP over IPv4 over Ethernet
- `capture`: reading a file packet by packet
- `timestamp`, `message`, `payload`, `text`: what a message holds, and how it reads
- `args`, `rows`, `csv`, `table`, `report`: which messages are kept, and how they are shown

Proof functions whose names start with `law_` state what holds of the library as a whole: what is
written is read back, nothing that was sent is lost, everything found belongs to its packet.

`app/` is the program around it: arguments, files and output.

```
pcap-analyzer capture.pcapng --all-messages --csv
```
