# EMS industrial gateway

A gateway that reads devices over south-side grid protocols (Modbus TCP, SNMP,
Redfish, DNP3, BACnet/IP), publishes their measurements to MQTT, and carries
commands from MQTT to the devices. An AsyncAPI document names the devices, their
channels and how each channel is bound to a protocol.

- `src/` is the library, verified with Verus: the gateway's life from boot to
  disconnect, which tasks a document asks for, topics and payloads, register
  codec and request plans, synthetic channels, max-min fair allocation, the
  envelope control law, reading and merging of configuration texts, retry
  curve, and the life of a command from its topic to its last ack.
- `app/` is the program around it: connections, timers, files, and the JSON and
  YAML shapes.
- `tests/` runs the library on concrete values, in whole numbers and in double
  precision.

The library's arithmetic is written for any number type with the operations of
`scalar::Scalar`. Its contracts say which operations are applied to which
values; they take nothing else for granted, so they hold of floating point too.
The laws of each module stand beside what they are about, as public proof
functions named `lemma_..`.
Where a law needs numbers to be ordered, or what occurs not to be rounded, it
says so by the facts of `arithmetic`, which whole numbers meet.
