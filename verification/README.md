# codingchallenges

Four small command-line tools, with their logic written in Verus and proved
against its specifications:

| Module | What it does |
|--------|--------------|
| `wc` | counts bytes, lines, words and characters; formats report lines |
| `cut` | parses field lists (`1,3 5`), selects fields of a delimited line |
| `json_lexer`, `json_parser`, `json_grammar` | cuts a text into JSON tokens, checks it against the JSON grammar, and defines JSON values as trees |
| `huffman`, `bitio`, `huff_file` | Huffman compression: frequencies, tree, codes, bit packing, file format |

Among the proved facts: decompressing the compressed form of a non-empty
byte string gives that string back (`huff_file::lemma_roundtrip`); the
codes of a Huffman tree form a prefix code (`huffman::lemma_codes_prefix_free`);
selecting every field of a line gives the line back
(`cut::lemma_cut_all_fields`); the validator accepts exactly the texts whose
tokens write one JSON value (`json_grammar::lemma_json_check_grammar`);
whitespace only separates tokens (`json_lexer::lemma_lex_join`); the number
and string readers agree with the JSON number and string grammars
(`json_lexer::lemma_number_end_grammar`, `json_lexer::lemma_string_body_grammar`);
each byte of a table sits at exactly one leaf of its Huffman tree
(`huffman::lemma_huffman_tree_leaves`); and the
order in which a compressed file stores its frequency records does not
change what it decompresses to (`huff_file::lemma_record_order`).

`src/` is the verified library, `tests/` its tests, and `app/` the program
around it (argument handling, files, standard input and output). Run the
program as `app wc|cut|json-parser|compression <arguments>`.
