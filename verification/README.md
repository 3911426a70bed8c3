# erez

Erez steers traffic over the paths that BGP offers, by the round-trip times that
eBPF programs measure on them. `src/` is the library, written and proved in Verus;
`app/` is the program around it: sockets, maps of the kernel, processes and the
terminal.

| Module | What it decides |
| --- | --- |
| `bgp` | what an update message announces and withdraws, what a peer's event leads to |
| `steering`, `descent` | which routes are known, what follows for the forwarding table, how weights are shared out |
| `rtt_aggregation` | which samples count, what a window shows |
| `fib`, `bpf`, `bpf_abi`, `wire`, `bytes` | what is stored in the kernel's maps, byte by byte, and what is reported of it |
| `config`, `interface` | defaults, and the interface that programs are attached to |
| `ns`, `netlink`, `topology`, `bird` | the lab: namespaces, links, routers and their daemons |
| `traffic_gen`, `repl`, `eventually` | the lab's traffic, its console, and assertions that have to hold before long |
| `net`, `assoc`, `text` | addresses, maps kept as lists, and text |

Weights of nexthops are double-precision numbers. The library carries their bits,
decides when they start anew and turns them into shares of the denominator; the
arithmetic on them is in `app/steering.rs`.

The program expects the compiled eBPF programs at `/usr/lib/erez/erez.bpf.o`.
