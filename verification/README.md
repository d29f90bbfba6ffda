# crab

Abstract domains for the analysis of eBPF programs, verified with Verus.

A state of the analysis (`ebpf_domain`) holds the types of registers (`type_domain`), their numeric
values (`add_bottom`, `finite_domain`, `zone_domain`), and the contents of the stack
(`array_domain`, `bitset_domain`). `ebpf_transformer` brings a state through an instruction;
`ebpf_check` decides whether a state meets an assertion.

Numeric values are zones: bounds on variables and on differences of two variables, kept in a graph
(`splitdbm`). Potentials that meet every edge exist exactly if no cycle has a negative weight, and the
search for them finds them where its sums stay within the range of numbers (`splitdbm::cycles`).
`zone_model` states what a zone means, and `zone_map` relates it to the graph.
Intervals (`interval`) give the values of expressions.

Laws that relate several functions are public proof functions. Those on zones stand beside the
zones; `interval_laws` and `word_laws` say what interval operations promise of the numbers in them,
`register_laws` that arithmetic on registers is sound, and `branch_laws` that conditional jumps
are. A signed division is sound where the divisor is a constant or the dividends are not all
negative: the quotients of a dividend below zero by a range of divisors round down, not toward zero.
`call_laws` says what a call leaves of the registers, and `ebpf_checker` proves that an access that
passes lies within its region.

`bitset_domain` keeps its bits in a `fixedbitset::FixedBitSet`; the contracts of the calls into that
crate are the only ones taken on trust.

`tests/` runs the library on concrete values. `app/` adds standard traits that the library's own
types do not carry.
