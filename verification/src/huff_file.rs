//! The compressed file format, and compression and decompression of whole
//! byte strings.
//!
//! Layout of a compressed file:
//!
//! * bytes 0..4: the magic `HUFF`;
//! * byte 4: number of zero bits that fill up the last byte of the stream;
//! * bytes 5..9: number of table entries, little endian;
//! * nine bytes per entry: the byte, then its frequency (eight bytes, little
//!   endian);
//! * the coded bit stream, packed most significant bit first.
use vstd::prelude::*;
use std::collections::HashMap;
use crate::bitio::{bytes_bits, padding_for, zero_bits, BitWriter};
use crate::huffman::{
    HuffNode, sum_below, build_tree, entries_upto, lemma_decode_codes, follow, code_table, codes_of, count_frequencies, decode_run, encode_bits, freq_map,
    generate_codes, huffman_tree, labels, lemma_code_table, lemma_count_positive,
    lemma_freq_total, lemma_huffman_tree_labels, map_entries, map_total, table_entries,
    table_view,
};

verus! {

broadcast use vstd::std_specs::hash::group_hash_axioms;

// ── Little-endian integers ──────────────────────────────────────────────────

/// `256` to the power `n`.
pub open spec fn pow256(n: nat) -> nat
    decreases n,
{
    if n == 0 {
        1
    } else {
        256 * pow256((n - 1) as nat)
    }
}

/// The `n` low bytes of `v`, least significant first.
pub open spec fn le_bytes(v: nat, n: nat) -> Seq<u8>
    decreases n,
{
    if n == 0 {
        seq![]
    } else {
        seq![(v % 256) as u8] + le_bytes(v / 256, (n - 1) as nat)
    }
}

/// The number that a byte string spells, least significant byte first.
pub open spec fn le_value(s: Seq<u8>) -> nat
    decreases s.len(),
{
    if s.len() == 0 {
        0
    } else {
        (s[0] + 256 * le_value(s.drop_first())) as nat
    }
}

proof fn lemma_le_bytes_len(v: nat, n: nat)
    ensures
        le_bytes(v, n).len() == n,
    decreases n,
{
    if n > 0 {
        lemma_le_bytes_len(v / 256, (n - 1) as nat);
    }
}

proof fn lemma_le_value_bound(s: Seq<u8>)
    ensures
        le_value(s) < pow256(s.len()),
    decreases s.len(),
{
    if s.len() > 0 {
        lemma_le_value_bound(s.drop_first());
    }
}

/// Reading back `n` little-endian bytes gives the number, when it fits.
pub proof fn lemma_le_roundtrip(v: nat, n: nat)
    requires
        v < pow256(n),
    ensures
        le_value(le_bytes(v, n)) == v,
    decreases n,
{
    if n > 0 {
        let s = le_bytes(v, n);
        lemma_le_roundtrip(v / 256, (n - 1) as nat);
        assert(s.drop_first() =~= le_bytes(v / 256, (n - 1) as nat));
    }
}

proof fn lemma_pow256_facts()
    ensures
        pow256(4) == 0x1_0000_0000,
        pow256(8) == 0x1_0000_0000_0000_0000,
{
    reveal_with_fuel(pow256, 9);
}

proof fn lemma_pow256_mono(a: nat, b: nat)
    requires
        a <= b,
    ensures
        pow256(a) <= pow256(b),
    decreases b,
{
    if a < b {
        lemma_pow256_mono(a, (b - 1) as nat);
    }
}

/// Appends the `n` low bytes of `v`, least significant first.
fn push_le(out: &mut Vec<u8>, v: u64, n: usize)
    ensures
        final(out)@ == old(out)@ + le_bytes(v as nat, n as nat),
{
    let mut x = v;
    let mut i: usize = 0;
    while i < n
        invariant
            i <= n,
            out@ + le_bytes(x as nat, (n - i) as nat) == old(out)@ + le_bytes(v as nat, n as nat),
        decreases n - i,
    {
        let ghost before = out@;
        out.push((x % 256) as u8);
        proof {
            assert(before + le_bytes(x as nat, (n - i) as nat) =~= out@ + le_bytes(
                (x / 256) as nat,
                (n - i - 1) as nat,
            ));
        }
        x = x / 256;
        i = i + 1;
    }
    assert(le_bytes(x as nat, 0) =~= Seq::<u8>::empty());
    assert(out@ =~= out@ + le_bytes(x as nat, 0));
}

/// Reads the `n` bytes at `start` as a little-endian number.
fn read_le(d: &[u8], start: usize, n: usize) -> (v: u64)
    requires
        n <= 8,
        start + n <= d@.len(),
    ensures
        v as nat == le_value(d@.subrange(start as int, start + n)),
{
    let mut v: u64 = 0;
    let mut k: usize = n;
    let _len = d.len();
    proof {
        lemma_pow256_facts();
    }
    assert(d@.subrange(start + n, start + n) =~= Seq::<u8>::empty());
    while k > 0
        invariant
            k <= n <= 8,
            start + n <= d@.len(),
            _len == d@.len(),
            v as nat == le_value(d@.subrange(start + k, start + n)),
            pow256(8) == 0x1_0000_0000_0000_0000,
        decreases k,
    {
        let ghost rest = d@.subrange(start + k, start + n);
        let ghost cur = d@.subrange(start + k - 1, start + n);
        proof {
            lemma_le_value_bound(rest);
            lemma_pow256_mono(rest.len(), 7);
            assert(pow256(8) == 256 * pow256(7));
            assert(cur.drop_first() =~= rest);
            assert(cur[0] == d@[start + k - 1]);
        }
        let idx = start + (k - 1);
        v = v * 256 + d[idx] as u64;
        k = k - 1;
    }
    v
}

// ── Errors ──────────────────────────────────────────────────────────────────

/// Why a byte string could not be compressed.
#[derive(Debug, PartialEq, Eq, Structural)]
pub enum CompressError {
    /// There is nothing to compress.
    EmptyInput,
}

/// Why a byte string could not be decompressed.
#[derive(Debug, PartialEq, Eq, Structural)]
pub enum DecompressError {
    /// Shorter than nine bytes, or the magic `HUFF` is missing.
    NotHuff,
    /// The frequency table runs past the end of the data.
    TruncatedHeader,
    /// The frequencies add up to more than `u64::MAX`.
    FrequencyOverflow,
    /// The frequency table has no entry, so there is no tree.
    EmptyTable,
    /// More filling bits are announced than the bit stream has.
    PaddingTooLarge,
}

// ── The format ──────────────────────────────────────────────────────────────

/// The magic that opens every compressed file: `HUFF`.
pub open spec fn magic() -> Seq<u8> {
    seq![0x48u8, 0x55u8, 0x46u8, 0x46u8]
}

/// One table entry as stored: the byte, then its frequency in eight bytes.
pub open spec fn entry_record(e: (u8, u64)) -> Seq<u8> {
    seq![e.0] + le_bytes(e.1 as nat, 8)
}

/// The stored form of a list of entries.
pub open spec fn entry_records(es: Seq<(u8, u64)>) -> Seq<u8>
    decreases es.len(),
{
    if es.len() == 0 {
        seq![]
    } else {
        entry_records(es.drop_last()) + entry_record(es.last())
    }
}

/// The header: magic, filling bits, number of entries, entries.
pub open spec fn header_bytes(padding: u8, es: Seq<(u8, u64)>) -> Seq<u8> {
    magic() + seq![padding] + le_bytes(es.len(), 4) + entry_records(es)
}

/// `out` is the compressed form of the non-empty `data`: the header with the
/// frequency table of `data` in ascending byte order, then the codes of the
/// bytes of `data` packed into bytes, the last one filled up with zero bits.
pub open spec fn compressed_form(data: Seq<u8>, out: Seq<u8>) -> bool {
    let m = freq_map(data);
    let table = codes_of(huffman_tree(m).unwrap());
    let bits = encode_bits(data, table);
    let padding = padding_for(bits.len());
    let header = header_bytes(padding as u8, map_entries(m));
    &&& out.len() >= header.len()
    &&& out.subrange(0, header.len() as int) == header
    &&& bytes_bits(out.skip(header.len() as int)) == bits + zero_bits(padding)
}

/// Entry `i` of the stored table of `d`.
pub open spec fn entry_at(d: Seq<u8>, i: int) -> (u8, u64) {
    (d[9 + 9 * i], le_value(d.subrange(10 + 9 * i, 18 + 9 * i)) as u64)
}

/// The frequency table made of the first `n` stored entries of `d`, a later
/// entry for a byte replacing an earlier one.
pub open spec fn table_of(d: Seq<u8>, n: nat) -> Map<u8, u64>
    decreases n,
{
    if n == 0 {
        Map::empty()
    } else {
        let e = entry_at(d, n - 1);
        table_of(d, (n - 1) as nat).insert(e.0, e.1)
    }
}

/// The one byte of a frequency table with a single entry.
pub open spec fn single_key(m: Map<u8, u64>) -> u8 {
    choose|b: u8| m.contains_key(b)
}

/// What decompressing `d` gives.
pub open spec fn decompress_spec(d: Seq<u8>) -> Result<Seq<u8>, DecompressError> {
    if d.len() < 9 || d.subrange(0, 4) != magic() {
        Err(DecompressError::NotHuff)
    } else {
        let padding = d[4];
        let n = le_value(d.subrange(5, 9));
        let h: nat = 9 + 9 * n;
        if d.len() < h {
            Err(DecompressError::TruncatedHeader)
        } else {
            let m = table_of(d, n);
            let total = map_total(m);
            if total > u64::MAX {
                Err(DecompressError::FrequencyOverflow)
            } else if m.dom().len() == 0 {
                Err(DecompressError::EmptyTable)
            } else {
                let body = d.skip(h as int);
                if padding > 8 * body.len() {
                    Err(DecompressError::PaddingTooLarge)
                } else if m.dom().len() == 1 {
                    Ok(Seq::new(total, |i: int| single_key(m)))
                } else {
                    let t = huffman_tree(m).unwrap();
                    let bits = bytes_bits(body).take(8 * body.len() - padding);
                    Ok(decode_run(t, t, bits, 0, total, seq![]))
                }
            }
        }
    }
}


proof fn lemma_entry_records_len(es: Seq<(u8, u64)>)
    ensures
        entry_records(es).len() == 9 * es.len(),
    decreases es.len(),
{
    if es.len() > 0 {
        lemma_entry_records_len(es.drop_last());
        lemma_le_bytes_len(es.last().1 as nat, 8);
    }
}

/// Compresses `data`: counts its bytes, builds the Huffman tree, and writes
/// the header and the coded bytes.
pub fn compress(data: &[u8]) -> (r: Result<Vec<u8>, CompressError>)
    ensures
        match r {
            Ok(out) => data@.len() > 0 && compressed_form(data@, out@),
            Err(e) => data@.len() == 0 && e == CompressError::EmptyInput,
        },
{
    if data.len() == 0 {
        return Err(CompressError::EmptyInput);
    }
    let freq = count_frequencies(data);
    proof {
        lemma_freq_total(data@);
        lemma_huffman_tree_labels(freq@);
        lemma_count_positive(data@, 0);
        assert(freq@.contains_key(data@[0]));
    }
    let tree = build_tree(&freq).unwrap();
    let ghost m = freq@;
    let ghost table = codes_of(*tree);
    let mut codes: HashMap<u8, Vec<bool>> = HashMap::new();
    let mut prefix: Vec<bool> = Vec::new();
    assert(table_view(codes@) =~= Map::<u8, Seq<bool>>::empty());
    generate_codes(&tree, &mut prefix, &mut codes);
    proof {
        lemma_code_table(*tree, seq![], Map::empty());
        assert(labels(*tree) == m.dom());
    }
    let mut writer = BitWriter::new();
    let mut i: usize = 0;
    assert(data@.take(0) =~= Seq::<u8>::empty());
    while i < data.len()
        invariant
            i <= data.len(),
            writer.wf(),
            writer.bits() == encode_bits(data@.take(i as int), table),
            table_view(codes@) == table,
            m == freq_map(data@),
            labels(*tree) == m.dom(),
            table == code_table(*tree, seq![], Map::empty()),
            forall|b: u8| #[trigger] table.contains_key(b) <==> labels(*tree).contains(b),
        decreases data.len() - i,
    {
        let b = data[i];
        proof {
            lemma_count_positive(data@, i as int);
            assert(m.contains_key(b));
            assert(table.contains_key(b));
            assert(table_view(codes@).contains_key(b));
        }
        let code = codes.get(&b).unwrap();
        assert(code@ == table[b]);
        let mut j: usize = 0;
        let ghost start = writer.bits();
        while j < code.len()
            invariant
                j <= code.len(),
                writer.wf(),
                writer.bits() == start + code@.take(j as int),
            decreases code.len() - j,
        {
            writer.write_bit(code[j]);
            assert(code@.take(j + 1) =~= code@.take(j as int).push(code@[j as int]));
            j = j + 1;
        }
        proof {
            assert(code@.take(code.len() as int) =~= code@);
            let t = data@.take(i + 1);
            assert(t.drop_last() =~= data@.take(i as int));
            assert(t.last() == b);
        }
        i = i + 1;
    }
    assert(data@.take(data.len() as int) =~= data@);
    let ghost bits = writer.bits();
    let (mut encoded, padding) = writer.flush();
    // The header.
    let entries = table_entries(&freq);
    let mut out: Vec<u8> = Vec::new();
    out.push(0x48u8);
    out.push(0x55u8);
    out.push(0x46u8);
    out.push(0x46u8);
    out.push(padding);
    proof {
        lemma_entry_records_len(entries@);
        crate::huffman::lemma_map_entries_len(m);
        crate::huffman::lemma_map_entries_count(m);
    }
    push_le(&mut out, freq.len() as u64, 4);
    let ghost prefix_bytes = out@;
    assert(prefix_bytes =~= magic() + seq![padding] + le_bytes(entries@.len(), 4));
    let mut k: usize = 0;
    assert(entries@.take(0) =~= Seq::<(u8, u64)>::empty());
    assert(out@ =~= prefix_bytes + entry_records(entries@.take(0)));
    while k < entries.len()
        invariant
            k <= entries.len(),
            out@ == prefix_bytes + entry_records(entries@.take(k as int)),
        decreases entries.len() - k,
    {
        let e = entries[k];
        out.push(e.0);
        push_le(&mut out, e.1, 8);
        proof {
            let t = entries@.take(k + 1);
            assert(t.drop_last() =~= entries@.take(k as int));
            assert(t.last() == e);
            assert(out@ =~= prefix_bytes + entry_records(t));
        }
        k = k + 1;
    }
    assert(entries@.take(entries.len() as int) =~= entries@);
    let ghost header = out@;
    assert(header == header_bytes(padding, map_entries(m)));
    let ghost body = encoded@;
    out.append(&mut encoded);
    proof {
        assert(out@.subrange(0, header.len() as int) =~= header);
        assert(out@.skip(header.len() as int) =~= body);
        assert(padding as nat == padding_for(bits.len()));
        assert((padding_for(bits.len()) as u8) == padding);
    }
    Ok(out)
}


proof fn lemma_table_of_finite(d: Seq<u8>, n: nat)
    ensures
        table_of(d, n).dom().finite(),
    decreases n,
{
    if n > 0 {
        lemma_table_of_finite(d, (n - 1) as nat);
    }
}

proof fn lemma_dom_len_zero(m: Map<u8, u64>)
    requires
        m.dom().finite(),
    ensures
        (m.dom().len() == 0) == (forall|b: u8| !m.contains_key(b)),
{
    if m.dom().len() == 0 {
        assert forall|b: u8| !m.contains_key(b) by {
            if m.contains_key(b) {
                vstd::set::axiom_set_contains_len(m.dom(), b);
            }
        }
    } else {
        if forall|b: u8| !m.contains_key(b) {
            assert(m.dom() =~= Set::<u8>::empty());
            broadcast use vstd::set::axiom_set_empty_len;
        }
    }
}

proof fn lemma_single_key(m: Map<u8, u64>, b: u8)
    requires
        m.dom().finite(),
        m.dom().len() == 1,
        m.contains_key(b),
    ensures
        forall|c: u8| m.contains_key(c) ==> c == b,
        single_key(m) == b,
{
    vstd::set::axiom_set_remove_len(m.dom(), b);
    vstd::set::axiom_set_remove_finite(m.dom(), b);
    assert forall|c: u8| m.contains_key(c) implies c == b by {
        if c != b {
            assert(m.dom().remove(b).contains(c));
            vstd::set::axiom_set_contains_len(m.dom().remove(b), c);
        }
    }
    assert(m.contains_key(single_key(m)));
}

proof fn lemma_leaf_tree_single(t: HuffNode, m: Map<u8, u64>)
    requires
        labels(t) == m.dom(),
        t is Leaf,
    ensures
        m.dom().len() == 1,
{
    match t {
        HuffNode::Leaf { byte } => {
            broadcast use vstd::set::axiom_set_empty_len;
            vstd::set::axiom_set_insert_len(Set::<u8>::empty(), byte);
        },
        _ => {},
    }
}

/// Decompresses `data`, the inverse of `compress`.
pub fn decompress(data: &[u8]) -> (r: Result<Vec<u8>, DecompressError>)
    ensures
        match r {
            Ok(out) => decompress_spec(data@) == Ok::<Seq<u8>, DecompressError>(out@),
            Err(e) => decompress_spec(data@) == Err::<Seq<u8>, DecompressError>(e),
        },
{
    let len = data.len();
    if len < 9 || data[0] != 0x48u8 || data[1] != 0x55u8 || data[2] != 0x46u8 || data[3] != 0x46u8 {
        proof {
            if len >= 9 {
                let p = data@.subrange(0, 4);
                if p == magic() {
                    assert(p[0] == data@[0] && p[1] == data@[1] && p[2] == data@[2] && p[3]
                        == data@[3]);
                }
            }
        }
        return Err(DecompressError::NotHuff);
    }
    assert(data@.subrange(0, 4) =~= magic());
    let padding = data[4];
    let n64 = read_le(data, 5, 4);
    proof {
        lemma_le_value_bound(data@.subrange(5, 9));
        lemma_pow256_facts();
    }
    let h64: u64 = 9 + 9 * n64;
    if (len as u64) < h64 {
        return Err(DecompressError::TruncatedHeader);
    }
    let h = h64 as usize;
    let n = n64 as usize;
    // The frequency table.
    let mut freq: HashMap<u8, u64> = HashMap::new();
    let mut i: usize = 0;
    assert(freq@ =~= table_of(data@, 0));
    while i < n
        invariant
            i <= n,
            9 + 9 * n <= len,
            len == data@.len(),
            freq@ == table_of(data@, i as nat),
        decreases n - i,
    {
        let off = 9 + 9 * i;
        let byte = data[off];
        let f = read_le(data, off + 1, 8);
        freq.insert(byte, f);
        i = i + 1;
    }
    let ghost m = freq@;
    proof {
        lemma_table_of_finite(data@, n as nat);
        lemma_dom_len_zero(m);
    }
    // The number of bytes to decode.
    let mut total: u128 = 0;
    let mut b: u16 = 0;
    while b < 256
        invariant
            b <= 256,
            total as nat == sum_below(m, b as nat),
            total <= b * 0x1_0000_0000_0000_0000,
            freq@ == m,
        decreases 256 - b,
    {
        match freq.get(&(b as u8)) {
            Some(f) => {
                total = total + *f as u128;
            },
            None => {},
        }
        b = b + 1;
    }
    if total > 0xffff_ffff_ffff_ffffu128 {
        return Err(DecompressError::FrequencyOverflow);
    }
    let total_chars = total as u64;
    let tree = match build_tree(&freq) {
        Some(t) => t,
        None => {
            proof {
                lemma_huffman_tree_labels(m);
            }
            return Err(DecompressError::EmptyTable);
        },
    };
    proof {
        lemma_huffman_tree_labels(m);
    }
    let body_len = len - h;
    let ghost body = data@.skip(h as int);
    if (padding as u128) > (body_len as u128) * 8 {
        return Err(DecompressError::PaddingTooLarge);
    }
    let total_bits: u128 = (body_len as u128) * 8 - padding as u128;
    let mut output: Vec<u8> = Vec::new();
    if freq.len() == 1 {
        // A single byte: the stream carries nothing more than its count.
        let mut key: u8 = 0;
        let mut b: u16 = 0;
        let mut found = false;
        while b < 256 && !found
            invariant
                b <= 256,
                found ==> m.contains_key(key),
                !found ==> forall|c: u8| (c as int) < b ==> !m.contains_key(c),
                freq@ == m,
            decreases 256 - b,
        {
            if freq.contains_key(&(b as u8)) {
                key = b as u8;
                found = true;
            }
            b = b + 1;
        }
        proof {
            if !found {
                vstd::set::axiom_set_choose_len(m.dom());
            }
            lemma_single_key(m, key);
        }
        let mut c: u64 = 0;
        while c < total_chars
            invariant
                c <= total_chars,
                output@ == Seq::new(c as nat, |i: int| key),
            decreases total_chars - c,
        {
            output.push(key);
            c = c + 1;
            assert(output@ =~= Seq::new(c as nat, |i: int| key));
        }
        return Ok(output);
    }
    proof {
        if *tree is Leaf {
            lemma_leaf_tree_single(*tree, m);
        }
    }
    // Walk the tree bit by bit.
    let ghost bits = bytes_bits(body).take(total_bits as int);
    let root: &HuffNode = &tree;
    let mut current: &HuffNode = root;
    let mut k: u128 = 0;
    let mut done = false;
    while k < total_bits && !done
        invariant
            *root is Internal,
            *current is Internal,
            k <= total_bits,
            total_bits <= 8 * body_len,
            h + body_len == len,
            len == data@.len(),
            body == data@.skip(h as int),
            bits == bytes_bits(body).take(total_bits as int),
            total_chars as nat == map_total(m),
            done ==> decode_run(*root, *root, bits, 0, map_total(m), seq![]) == output@,
            !done ==> decode_run(*root, *root, bits, 0, map_total(m), seq![]) == decode_run(
                *root,
                *current,
                bits,
                k as int,
                map_total(m),
                output@,
            ),
        decreases total_bits - k,
    {
        let q = k / 8;
        let idx = h + q as usize;
        let byte = data[idx];
        let shift: u8 = (7 - (k % 8)) as u8;
        let bit = (byte >> shift) & 1u8 == 1u8;
        assert(bits[k as int] == bit) by {
            assert(body[q as int] == byte);
        }
        k = k + 1;
        match current {
            HuffNode::Internal { left, right } => {
                let next: &HuffNode = if bit {
                    &**right
                } else {
                    &**left
                };
                match next {
                    HuffNode::Leaf { byte: leaf } => {
                        output.push(*leaf);
                        if output.len() as u64 == total_chars {
                            done = true;
                        } else {
                            current = root;
                        }
                    },
                    HuffNode::Internal { .. } => {
                        current = next;
                    },
                }
            },
            HuffNode::Leaf { .. } => {},
        }
    }
    Ok(output)
}


// ── Compression loses nothing ───────────────────────────────────────────────

/// The table that a list of entries makes, a later entry for a byte
/// replacing an earlier one.
pub open spec fn entries_map(es: Seq<(u8, u64)>) -> Map<u8, u64>
    decreases es.len(),
{
    if es.len() == 0 {
        Map::empty()
    } else {
        entries_map(es.drop_last()).insert(es.last().0, es.last().1)
    }
}

proof fn lemma_entry_records_at(es: Seq<(u8, u64)>, i: int)
    requires
        0 <= i < es.len(),
    ensures
        entry_records(es).len() == 9 * es.len(),
        entry_records(es).subrange(9 * i, 9 * i + 9) == entry_record(es[i]),
    decreases es.len(),
{
    lemma_entry_records_len(es);
    lemma_le_bytes_len(es.last().1 as nat, 8);
    let p = es.drop_last();
    lemma_entry_records_len(p);
    if i < es.len() - 1 {
        lemma_entry_records_at(p, i);
        assert(entry_records(es).subrange(9 * i, 9 * i + 9) =~= entry_records(p).subrange(
            9 * i,
            9 * i + 9,
        ));
    } else {
        assert(entry_records(es).subrange(9 * i, 9 * i + 9) =~= entry_record(es.last()));
    }
}

proof fn lemma_table_of_entries(d: Seq<u8>, es: Seq<(u8, u64)>, k: nat)
    requires
        k <= es.len(),
        forall|i: int| 0 <= i < es.len() ==> #[trigger] entry_at(d, i) == es[i],
    ensures
        table_of(d, k) == entries_map(es.take(k as int)),
    decreases k,
{
    if k == 0 {
        assert(es.take(0) =~= Seq::<(u8, u64)>::empty());
    } else {
        lemma_table_of_entries(d, es, (k - 1) as nat);
        let t = es.take(k as int);
        assert(t.drop_last() =~= es.take(k - 1));
        assert(entry_at(d, k - 1) == es[k - 1]);
    }
}

proof fn lemma_entries_map_upto(m: Map<u8, u64>, k: nat)
    requires
        k <= 256,
    ensures
        entries_map(entries_upto(m, k)) == Map::new(
            |b: u8| m.contains_key(b) && (b as nat) < k,
            |b: u8| m[b],
        ),
    decreases k,
{
    if k > 0 {
        lemma_entries_map_upto(m, (k - 1) as nat);
        let b = (k - 1) as u8;
        let prev = entries_upto(m, (k - 1) as nat);
        if m.contains_key(b) {
            assert(prev.push((b, m[b])).drop_last() =~= prev);
        }
        assert(entries_map(entries_upto(m, k)) =~= Map::new(
            |c: u8| m.contains_key(c) && (c as nat) < k,
            |c: u8| m[c],
        ));
    }
}

/// The header of a compressed form: the magic, the filling bits, and the
/// table of `data` stored record by record in ascending byte order.
proof fn lemma_compressed_header(data: Seq<u8>, out: Seq<u8>)
    requires
        0 < data.len(),
        compressed_form(data, out),
    ensures
        ({
            let m = freq_map(data);
            let es = map_entries(m);
            let bits = encode_bits(data, codes_of(huffman_tree(m).unwrap()));
            let n = le_value(out.subrange(5, 9));
            &&& out.len() >= 9
            &&& out.subrange(0, 4) == magic()
            &&& out[4] == padding_for(bits.len()) as u8
            &&& n == es.len()
            &&& out.len() >= 9 + 9 * n
            &&& forall|i: int| 0 <= i < n ==> #[trigger] entry_at(out, i) == es[i]
            &&& bytes_bits(out.skip((9 + 9 * n) as int)) == bits + zero_bits(padding_for(bits.len()))
        }),
{
    let m = freq_map(data);
    let es = map_entries(m);
    let t = huffman_tree(m).unwrap();
    let table = codes_of(t);
    let bits = encode_bits(data, table);
    let pad = padding_for(bits.len());
    let header = header_bytes(pad as u8, es);
    crate::huffman::lemma_map_entries_len(m);
    lemma_entry_records_len(es);
    lemma_le_bytes_len(es.len(), 4);
    let hl = header.len();
    assert(hl == 9 + 9 * es.len());
    assert(out.subrange(0, 4) =~= magic()) by {
        assert forall|i: int| 0 <= i < 4 implies out.subrange(0, 4)[i] == magic()[i] by {
            assert(out.subrange(0, hl as int)[i] == header[i]);
        }
    }
    assert(out[4] == pad as u8) by {
        assert(out.subrange(0, hl as int)[4] == header[4]);
    }
    assert(out.subrange(5, 9) =~= le_bytes(es.len(), 4)) by {
        assert forall|i: int| 0 <= i < 4 implies out.subrange(5, 9)[i] == le_bytes(
            es.len(),
            4,
        )[i] by {
            assert(out.subrange(0, hl as int)[5 + i] == header[5 + i]);
        }
    }
    lemma_pow256_facts();
    lemma_le_roundtrip(es.len(), 4);
    let n = le_value(out.subrange(5, 9));
    assert(n == es.len());
    assert forall|i: int| 0 <= i < es.len() implies #[trigger] entry_at(out, i) == es[i] by {
        lemma_entry_records_at(es, i);
        let rec = entry_record(es[i]);
        lemma_le_bytes_len(es[i].1 as nat, 8);
        assert forall|j: int| 0 <= j < 9 implies out[9 + 9 * i + j] == rec[j] by {
            assert(out.subrange(0, hl as int)[9 + 9 * i + j] == header[9 + 9 * i + j]);
            assert(header[9 + 9 * i + j] == entry_records(es)[9 * i + j]);
            assert(entry_records(es).subrange(9 * i, 9 * i + 9)[j] == rec[j]);
        }
        assert(out[9 + 9 * i + 0] == rec[0]);
        assert(out[9 + 9 * i] == es[i].0);
        assert(out.subrange(10 + 9 * i, 18 + 9 * i) =~= le_bytes(es[i].1 as nat, 8)) by {
            assert forall|j: int| 0 <= j < 8 implies out.subrange(10 + 9 * i, 18 + 9 * i)[j]
                == le_bytes(es[i].1 as nat, 8)[j] by {
                assert(out[9 + 9 * i + (j + 1)] == rec[j + 1]);
            }
        }
        lemma_le_roundtrip(es[i].1 as nat, 8);
    }
}

/// Compression loses nothing: the compressed form of a non-empty byte
/// string decompresses to that string.
pub proof fn lemma_roundtrip(data: Seq<u8>, out: Seq<u8>)
    requires
        0 < data.len() <= usize::MAX,
        compressed_form(data, out),
    ensures
        decompress_spec(out) == Ok::<Seq<u8>, DecompressError>(data),
{
    let m = freq_map(data);
    let es = map_entries(m);
    let t = huffman_tree(m).unwrap();
    let table = codes_of(t);
    let bits = encode_bits(data, table);
    let pad = padding_for(bits.len());
    lemma_compressed_header(data, out);
    crate::huffman::lemma_map_entries_len(m);
    let n = le_value(out.subrange(5, 9));
    let hl = 9 + 9 * n;
    // The table.
    lemma_table_of_entries(out, es, es.len());
    assert(es.take(es.len() as int) =~= es);
    lemma_entries_map_upto(m, 256);
    assert(table_of(out, n) =~= m);
    lemma_table_of_finite(out, n);
    // The totals.
    lemma_freq_total(data);
    lemma_huffman_tree_labels(m);
    lemma_count_positive(data, 0);
    assert(m.contains_key(data[0]));
    vstd::set::axiom_set_contains_len(m.dom(), data[0]);
    // The body.
    let body = out.skip(hl as int);
    assert(bytes_bits(body).len() == bits.len() + pad);
    if m.dom().len() == 1 {
        lemma_single_key(m, data[0]);
        assert forall|i: int| 0 <= i < data.len() implies data[i] == single_key(m) by {
            lemma_count_positive(data, i);
            assert(m.contains_key(data[i]));
        }
        assert(Seq::new(map_total(m), |i: int| single_key(m)) =~= data);
    } else {
        if t is Leaf {
            lemma_leaf_tree_single(t, m);
        }
        lemma_code_table(t, seq![], Map::empty());
        assert(bytes_bits(body).take(8 * body.len() - out[4]) =~= bits);
        assert forall|k: int| 0 <= k < data.len() implies table.contains_key(#[trigger] data[k])
            && follow(t, table[data[k]]) == Some(data[k]) by {
            lemma_count_positive(data, k);
            assert(table[data[k]].skip(0) =~= table[data[k]]);
        }
        assert(bits.skip(0) =~= bits);
        lemma_decode_codes(t, table, data, bits, 0, map_total(m), seq![]);
        assert(Seq::<u8>::empty() + data =~= data);
    }
}

// ── The order of the stored records ─────────────────────────────────────────

/// The first `n` stored records of `d`, as a set of (byte, frequency).
pub open spec fn record_set(d: Seq<u8>, n: nat) -> Set<(u8, u64)> {
    Set::new(|e: (u8, u64)| exists|i: int| 0 <= i < n && entry_at(d, i) == e)
}

/// No byte has two records among the first `n` stored ones.
pub open spec fn distinct_keys(d: Seq<u8>, n: nat) -> bool {
    forall|i: int, j: int| 0 <= i < j < n ==> entry_at(d, i).0 != entry_at(d, j).0
}

proof fn lemma_table_of_distinct(d: Seq<u8>, n: nat)
    requires
        distinct_keys(d, n),
    ensures
        forall|b: u8| #[trigger]
            table_of(d, n).contains_key(b) <==> exists|i: int|
                0 <= i < n && entry_at(d, i).0 == b,
        forall|i: int| 0 <= i < n ==> table_of(d, n)[#[trigger] entry_at(d, i).0] == entry_at(
            d,
            i,
        ).1,
    decreases n,
{
    if n > 0 {
        lemma_table_of_distinct(d, (n - 1) as nat);
        let e = entry_at(d, n - 1);
        assert forall|b: u8| #[trigger]
            table_of(d, n).contains_key(b) implies exists|i: int|
                0 <= i < n && entry_at(d, i).0 == b by {
            if b != e.0 {
                assert(table_of(d, (n - 1) as nat).contains_key(b));
            }
        }
        assert forall|i: int| 0 <= i < n implies table_of(d, n)[#[trigger] entry_at(d, i).0]
            == entry_at(d, i).1 by {
            if i < n - 1 {
                assert(entry_at(d, i).0 != e.0);
            }
        }
    }
}

/// The order in which a file stores its frequency records does not matter:
/// two files that agree in everything but that order, and store no byte
/// twice, decompress alike.
pub proof fn lemma_record_order(d1: Seq<u8>, d2: Seq<u8>)
    requires
        d1.len() == d2.len(),
        9 <= d1.len(),
        d1.subrange(0, 9) == d2.subrange(0, 9),
        9 + 9 * le_value(d1.subrange(5, 9)) <= d1.len(),
        d1.skip((9 + 9 * le_value(d1.subrange(5, 9))) as int) == d2.skip(
            (9 + 9 * le_value(d1.subrange(5, 9))) as int,
        ),
        distinct_keys(d1, le_value(d1.subrange(5, 9))),
        distinct_keys(d2, le_value(d1.subrange(5, 9))),
        record_set(d1, le_value(d1.subrange(5, 9))) == record_set(
            d2,
            le_value(d1.subrange(5, 9)),
        ),
    ensures
        decompress_spec(d1) == decompress_spec(d2),
{
    let n = le_value(d1.subrange(5, 9));
    assert(d1.subrange(0, 4) =~= d1.subrange(0, 9).subrange(0, 4));
    assert(d2.subrange(0, 4) =~= d2.subrange(0, 9).subrange(0, 4));
    assert(d1.subrange(5, 9) =~= d1.subrange(0, 9).subrange(5, 9));
    assert(d2.subrange(5, 9) =~= d2.subrange(0, 9).subrange(5, 9));
    assert(d1[4] == d1.subrange(0, 9)[4]);
    assert(d2[4] == d2.subrange(0, 9)[4]);
    lemma_table_of_distinct(d1, n);
    lemma_table_of_distinct(d2, n);
    let t1 = table_of(d1, n);
    let t2 = table_of(d2, n);
    assert forall|b: u8| t1.contains_key(b) implies t2.contains_key(b) && t2[b] == t1[b] by {
        let i = choose|i: int| 0 <= i < n && entry_at(d1, i).0 == b;
        assert(record_set(d1, n).contains(entry_at(d1, i)));
        let j = choose|j: int| 0 <= j < n && entry_at(d2, j) == entry_at(d1, i);
        assert(entry_at(d2, j).0 == b);
    }
    assert forall|b: u8| t2.contains_key(b) implies t1.contains_key(b) by {
        let j = choose|j: int| 0 <= j < n && entry_at(d2, j).0 == b;
        assert(record_set(d2, n).contains(entry_at(d2, j)));
        let i = choose|i: int| 0 <= i < n && entry_at(d1, i) == entry_at(d2, j);
        assert(entry_at(d1, i).0 == b);
    }
    assert(t1 =~= t2);
}

proof fn lemma_entries_upto_ascending(m: Map<u8, u64>, k: nat)
    requires
        k <= 256,
    ensures
        forall|i: int|
            0 <= i < entries_upto(m, k).len() ==> (#[trigger] entries_upto(m, k)[i].0 as nat) < k,
        forall|i: int, j: int|
            0 <= i < j < entries_upto(m, k).len() ==> #[trigger] entries_upto(m, k)[i].0
                < #[trigger] entries_upto(m, k)[j].0,
    decreases k,
{
    if k > 0 {
        lemma_entries_upto_ascending(m, (k - 1) as nat);
        let prev = entries_upto(m, (k - 1) as nat);
        let b = (k - 1) as u8;
        assert(b as nat == k - 1);
        if m.contains_key(b) {
            let cur = prev.push((b, m[b]));
            assert(entries_upto(m, k) == cur);
            assert forall|i: int| 0 <= i < cur.len() implies (cur[i].0 as nat) < k by {
                if i < prev.len() {
                    assert(cur[i] == prev[i]);
                }
            }
            assert forall|i: int, j: int| 0 <= i < j < cur.len() implies cur[i].0 < cur[j].0 by {
                assert(cur[i] == prev[i]);
                if j < prev.len() {
                    assert(cur[j] == prev[j]);
                }
            }
        }
    }
}

/// Compression loses nothing, whatever order the frequency records are then
/// stored in: a file that differs from the compressed form of `data` only in
/// the order of its records, and stores no byte twice, decompresses to
/// `data`.
pub proof fn lemma_roundtrip_any_order(data: Seq<u8>, out: Seq<u8>, d: Seq<u8>)
    requires
        0 < data.len() <= usize::MAX,
        compressed_form(data, out),
        d.len() == out.len(),
        d.subrange(0, 9) == out.subrange(0, 9),
        d.skip((9 + 9 * le_value(out.subrange(5, 9))) as int) == out.skip(
            (9 + 9 * le_value(out.subrange(5, 9))) as int,
        ),
        distinct_keys(d, le_value(out.subrange(5, 9))),
        record_set(d, le_value(out.subrange(5, 9))) == record_set(
            out,
            le_value(out.subrange(5, 9)),
        ),
    ensures
        decompress_spec(d) == Ok::<Seq<u8>, DecompressError>(data),
{
    let es = map_entries(freq_map(data));
    lemma_compressed_header(data, out);
    lemma_entries_upto_ascending(freq_map(data), 256);
    let n = le_value(out.subrange(5, 9));
    assert forall|i: int, j: int| 0 <= i < j < n implies entry_at(out, i).0 != entry_at(
        out,
        j,
    ).0 by {
        assert(entry_at(out, i) == es[i]);
        assert(entry_at(out, j) == es[j]);
    }
    lemma_record_order(out, d);
    lemma_roundtrip(data, out);
}

} // verus!
