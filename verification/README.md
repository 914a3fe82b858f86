# heavykeeper

Bounded tracking of the heaviest keys of a stream, written and proved in Verus.

| module           | what it holds                                                       |
|------------------|---------------------------------------------------------------------|
| `priority_queue` | `TopKQueue`: slots, a min-heap over them, and a lookup table         |
| `model`, `laws`  | the queue as a map of entries, and what follows from its operations  |
| `heap_order`     | the order of a binary heap and the steps that restore it             |
| `table`          | the hash table of slot numbers (`hashbrown`)                         |
| `sip`            | `SipState`, seeded SipHash-1-3 (`siphasher`, `fastrand`)             |
| `small_key`      | `SmallKey`, a byte key kept inline up to 15 bytes                    |
| `bytes`          | equality and dictionary order of byte strings                        |
| `words`          | splitting text into lower-case words                                 |
| `keys`           | numbers, `bool`, `char`, arrays and tuples as keys                   |
| `traits`         | counter widths, lookups by another type, copies of borrowed values   |
| `realloc`        | moving large buffers                                                 |
| `calls`          | calls that say which function a value came from                      |
| `debug`          | showing a struct through a formatter                                 |
| `vectors`        | the allocation of vectors, sorting by rank                           |

`app/` prints words and feeds text to whatever counts it.

An item stands for the key that its view gives; two items with equal views are
the same key. A type becomes an item by implementing `SipHash`, the bytes that it
feeds to a hasher, and `Lookup`, which compares it with a probe.

What a container has allocated, what a formatter writes and which number a random
source gives rest on the machine. Contracts do not name such a value; they say which
call it came from, and with which arguments.
