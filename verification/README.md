# wordle_codec

Packs a sorted five-letter word list into small tables and answers, from those
tables alone, whether a word is in the list and which word sits at an index.

The coder runs in passes:

1. index-count code (`indexing`): the first three letters become marker bytes
   that count three letter counters up, the last two letters stay as they are;
2. LZSS (`lzss`): a 2048-byte window, references of 6 to 12 bytes written as a
   mark in the stream and kept in a separate 14-bit-per-entry match list;
3. Huffman (`huffman`): a tree over the LZSS stream's byte counts, laid out as a
   flat `i8` table the decoder walks bit by bit.

`decoder` is the reader: it walks the flat table over the packed stream, replays
the LZSS references into its window and counts the letters back up, stopping at
the word asked for. `roundtrip` proves that, on the tables the coder builds for a
list, the decoder answers every query as the list itself does.

Also here: arithmetic coding (`arith`), the bit-stream helpers (`bits`), and the
word-file handling (`words`: trimmed lines, sorting, the answer bitmap and a
three-letter prefix-trie code).

Layout:

- `src/`: the library, verified with Verus;
- `tests/`: tests of the library on concrete values;
- `app/`: the encoder and decoder programs (file I/O, printing, exit codes).
