# aplorandom

A memory-hard hashing scheme built around a small byte-stack virtual machine,
written in Verus: the library under `src/` is verified, with contracts stated
over mathematical models (`Seq<u8>`, big-endian values, ghost program states).

How a hash is computed:

1. An MD5 chain seeded with the input derives a VM program
   (`algorithm_creator::create_algorithm`): an eight-byte header with the
   smallest input size, then the instructions (`split_algorithm` separates
   them).
2. The input is padded with a MurmurHash2 chain to the wanted stack size
   (`algorithm_processor::pad_data`).
3. The program is run window by window over the stack until the stack is
   short enough (`algorithm_processor::Execution`); floating-point
   instructions are handed back to the caller, which supplies their results.
4. The remaining stack and the words emitted on the way form the digest
   (`VM::digest`, `VM::hex_digest`), whose SHA-256 is the fingerprint printed
   by the driver (`VM::sha256_digest`).

Layout:

* `src/rng.rs`: the MurmurHash2 and MD5 generators.
* `src/tools.rs`, `src/bytes.rs`: narrowing of draws, big-endian byte strings.
* `src/bignum.rs`, `src/cipher.rs`, `src/fingerprint.rs`: the calls into
  `num-bigint`, `aes` and `sha2`, each
  behind a trusted wrapper whose contract is documented above it.
* `src/instructions.rs`: the instruction set, one instruction at a time, and
  the run of a program over one window.
* `src/algorithm_creator.rs`: opcode tables and program derivation.
* `src/algorithm_processor.rs`: the machine, padding, windows and the digest.
* `tests/`: tests of the library against independently written models.
* `app/main.rs`: the command-line driver (timing, printing, and the
  floating-point arithmetic).
