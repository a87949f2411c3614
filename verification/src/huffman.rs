use vstd::prelude::*;
use vstd::string::StrSliceExecFns;
use vstd::string::StringSliceAdditionalSpecFns;

verus! {

/// Huffman algorithm: `encode` builds a prefix code from the byte
/// frequencies of the text and packs the coded text into bytes, together
/// with the table that `decode` uses to read the text back.
pub struct Huffman {}

/// A code tree: a leaf holds a byte, a branch splits on the next code bit.
enum HuffTree {
    Leaf(u8),
    Branch(Box<HuffTree>, Box<HuffTree>),
}

/// The height of a code tree; no leaf's code is longer than the height.
spec fn tree_height(t: HuffTree) -> nat
    decreases t,
{
    match t {
        HuffTree::Leaf(_) => 0,
        HuffTree::Branch(a, b) => 1 + (if tree_height(*a) >= tree_height(*b) {
            tree_height(*a)
        } else {
            tree_height(*b)
        }),
    }
}

/// A structural copy of a code tree.
fn clone_tree(t: &HuffTree) -> (r: HuffTree)
    ensures
        r == *t,
    decreases *t,
{
    match t {
        HuffTree::Leaf(ch) => HuffTree::Leaf(*ch),
        HuffTree::Branch(a, b) => HuffTree::Branch(Box::new(clone_tree(a)), Box::new(clone_tree(b))),
    }
}

/// Relies on `String::push`: appends one character at the end.
#[verifier::external_body]
fn string_push(s: &mut String, c: char)
    ensures
        final(s)@ == old(s)@.push(c),
{
    s.push(c)
}

impl Huffman {
    /// Encodes the text; an empty text has no code and yields nothing. The
    /// length bound keeps the bit buffer (at most 255 code bits per byte of
    /// text) within its index range.
    pub fn encode(text: &str) -> (res: Option<(Vec<u8>, std::collections::BTreeMap<String, u8>)>)
        requires
            text.spec_bytes().len() <= 0x0010_0000,
        ensures
            (res is Some) <==> text.spec_bytes().len() > 0,
    {
        broadcast use vstd::laws_cmp::group_laws_cmp;

        let bytes = text.as_bytes_vec();
        let n = bytes.len();
        let mut dict: std::collections::BTreeMap<u8, i64> = std::collections::BTreeMap::new();
        let mut i: usize = 0;
        while i < n
            invariant
                i <= n,
                n == bytes@.len(),
                n <= 0x0010_0000,
                forall|k: u8| #[trigger] dict@.contains_key(k) ==> 0 <= dict@[k] <= i,
                forall|k: u8| dict@.contains_key(k) ==> i > 0,
                i > 0 ==> dict@.contains_key(bytes@[0]),
            decreases n - i,
        {
            let ch = bytes[i];
            let prev: i64 = match dict.get(&ch) {
                Some(v) => *v,
                None => 0,
            };
            dict.insert(ch, prev + 1);
            i += 1;
        }
        let mut values: Vec<(i64, HuffTree)> = Vec::new();
        let mut c: usize = 0;
        while c < 256
            invariant
                c <= 256,
                values@.len() <= c,
                forall|t: int| 0 <= t < values@.len() ==> (#[trigger] values@[t]).0 >= 0,
                forall|t: int| 0 <= t < values@.len() ==> tree_height((#[trigger] values@[t]).1) == 0,
                forall|k: u8| #[trigger] dict@.contains_key(k) ==> n > 0,
                values@.len() > 0 ==> n > 0,
                (exists|k: u8| (k as int) < c && #[trigger] dict@.contains_key(k)) ==> values@.len()
                    > 0,
            decreases 256 - c,
        {
            if let Some(w) = dict.get(&(c as u8)) {
                proof {
                    assert(dict@.contains_key(c as u8));
                }
                let weight = if *w >= 0 {
                    *w
                } else {
                    0
                };
                values.push((weight, HuffTree::Leaf(c as u8)));
            }
            c += 1;
        }
        proof {
            if n > 0 {
                assert(dict@.contains_key(bytes@[0]));
                assert((bytes@[0] as int) < 256);
                assert(values@.len() > 0);
            }
        }
        if values.is_empty() {
            proof {
                if exists|k: u8| dict@.contains_key(k) {
                    let k = choose|k: u8| dict@.contains_key(k);
                    assert((k as int) < 256);
                }
            }
            return None;
        }
        proof {
            assert(n > 0);
        }
        if values.len() == 1 {
            let (w, tree) = values.remove(0);
            proof {
                assert(tree_height(tree) == 0);
            }
            let copy = clone_tree(&tree);
            values.push((w, HuffTree::Branch(Box::new(tree), Box::new(copy))));
        }
        proof {
            assert forall|t: int| 0 <= t < values@.len() implies tree_height(
                (#[trigger] values@[t]).1,
            ) + values@.len() <= 256 by {}
        }
        while values.len() > 1
            invariant
                values@.len() >= 1,
                forall|t: int| 0 <= t < values@.len() ==> (#[trigger] values@[t]).0 >= 0,
                forall|t: int|
                    0 <= t < values@.len() ==> tree_height((#[trigger] values@[t]).1)
                        + values@.len() <= 256,
            decreases values@.len(),
        {
            let ghost len0 = values@.len() as int;
            let ghost pre = values@;
            let first = smallest_index(&values);
            let (w1, e1) = values.swap_remove(first);
            proof {
                assert forall|t: int|
                    0 <= t < values@.len() implies tree_height((#[trigger] values@[t]).1) + len0
                    <= 256 by {
                    assert(values@[t] == pre.update(first as int, pre.last())[t]);
                }
                assert(tree_height(e1) + len0 <= 256);
            }
            let ghost mid = values@;
            let second = smallest_index(&values);
            let (w2, e2) = values.swap_remove(second);
            proof {
                assert forall|t: int|
                    0 <= t < values@.len() implies tree_height((#[trigger] values@[t]).1) + len0
                    <= 256 by {
                    assert(values@[t] == mid.update(second as int, mid.last())[t]);
                }
                assert(tree_height(e2) + len0 <= 256);
            }
            let w = if w1 <= i64::MAX - w2 {
                w1 + w2
            } else {
                i64::MAX
            };
            let merged = HuffTree::Branch(Box::new(e1), Box::new(e2));
            proof {
                assert(tree_height(merged) + (len0 - 1) <= 256);
            }
            values.push((w, merged));
        }
        let (_, root) = values.remove(0);
        proof {
            assert(tree_height(root) <= 255);
        }
        let mut encode_table: std::collections::BTreeMap<u8, String> =
            std::collections::BTreeMap::new();
        extract_character_codes(&root, String::new(), &mut encode_table);
        proof {
            assert forall|k: u8| #[trigger] encode_table@.contains_key(k) implies encode_table@[k]@.len()
                <= 255 && vstd::utf8::is_ascii_chars(encode_table@[k]@) by {}
        }
        let mut decode_table: std::collections::BTreeMap<String, u8> =
            std::collections::BTreeMap::new();
        let mut c2: usize = 0;
        while c2 < 256
            invariant
                c2 <= 256,
            decreases 256 - c2,
        {
            if let Some(code) = encode_table.get(&(c2 as u8)) {
                decode_table.insert(code.clone(), c2 as u8);
            }
            c2 += 1;
        }
        let mut bits: Vec<bool> = Vec::new();
        let mut i2: usize = 0;
        while i2 < n
            invariant
                i2 <= n,
                n == bytes@.len(),
                n <= 0x0010_0000,
                bits@.len() <= i2 * 255,
                forall|k: u8|
                    #[trigger] encode_table@.contains_key(k) ==> encode_table@[k]@.len() <= 255
                        && vstd::utf8::is_ascii_chars(encode_table@[k]@),
            decreases n - i2,
        {
            let ch = bytes[i2];
            if let Some(code) = encode_table.get(&ch) {
                proof {
                    assert(encode_table@.contains_key(ch));
                    vstd::utf8::is_ascii_chars_encode_utf8(code@);
                }
                let cb = code.as_str().as_bytes_vec();
                proof {
                    assert(cb@.len() == code@.len());
                }
                let mut t: usize = 0;
                while t < cb.len()
                    invariant
                        t <= cb@.len(),
                        cb@.len() <= 255,
                        bits@.len() <= i2 * 255 + t,
                        i2 < n <= 0x0010_0000,
                    decreases cb@.len() - t,
                {
                    bits.push(cb[t] == 49u8);
                    t += 1;
                }
            }
            i2 += 1;
        }
        proof {
            assert(bits@.len() <= 0x0010_0000 * 255);
        }
        let length = bits.len();
        let rem: usize = if length % 8 == 0 {
            0
        } else {
            1
        };
        let dlen = length / 8 + rem + 1;
        let mut data: Vec<u8> = Vec::new();
        let mut z: usize = 0;
        while z < dlen
            invariant
                data@.len() == z,
                z <= dlen,
            decreases dlen - z,
        {
            data.push(0);
            z += 1;
        }
        let pad = dlen * 8 - length;
        data[0] = pad as u8;
        let mut idx = pad;
        let mut t2: usize = 0;
        while t2 < length
            invariant
                t2 <= length,
                length == bits@.len(),
                length <= 0x1000_0000,
                data@.len() == dlen,
                dlen <= 0x0200_0002,
                idx == pad + t2,
                pad + length == dlen * 8,
            decreases length - t2,
        {
            if bits[t2] {
                let mask: u8 = 128u8 >> ((idx % 8) as u8);
                let cur = data[idx / 8];
                data[idx / 8] = cur | mask;
            }
            idx += 1;
            t2 += 1;
        }
        Some((data, decode_table))
    }

    /// Reads the coded bytes back through the decode table: bits are taken
    /// from the first byte's padding offset on, and every match of the
    /// growing bit string in the table emits one character.
    pub fn decode(bytes: &Vec<u8>, decode_table: &std::collections::BTreeMap<String, u8>) -> (res:
        String)
        requires
            bytes@.len() >= 1,
            bytes@.len() <= 0x1000_0000,
    {
        broadcast use vstd::laws_cmp::group_laws_cmp;

        let mut idx = bytes[0] as usize;
        let mut res = String::new();
        let mut ch = String::new();
        let top = bytes.len() * 8;
        while idx < top
            invariant
                top == bytes@.len() * 8,
                bytes@.len() <= 0x1000_0000,
            decreases top - idx,
        {
            let mask: u8 = 128u8 >> ((idx % 8) as u8);
            if bytes[idx / 8] & mask == mask {
                string_push(&mut ch, '1');
            } else {
                string_push(&mut ch, '0');
            }
            if let Some(value) = decode_table.get(&ch) {
                string_push(&mut res, *value as char);
                ch = String::new();
            }
            idx += 1;
        }
        res
    }
}

/// The position of a smallest weight in the worklist.
fn smallest_index(values: &Vec<(i64, HuffTree)>) -> (r: usize)
    requires
        values@.len() >= 1,
    ensures
        r < values@.len(),
{
    let mut best: usize = 0;
    let mut q: usize = 1;
    while q < values.len()
        invariant
            best < values@.len(),
            q <= values@.len(),
        decreases values@.len() - q,
    {
        if values[q].0 < values[best].0 {
            best = q;
        }
        q += 1;
    }
    best
}

/// Walks the code tree, collecting for each leaf byte its path of code
/// bits as a string of zeroes and ones.
fn extract_character_codes(
    edge: &HuffTree,
    code: String,
    table: &mut std::collections::BTreeMap<u8, String>,
)
    requires
        vstd::utf8::is_ascii_chars(code@),
    ensures
        forall|k: u8|
            (#[trigger] final(table)@.contains_key(k)) ==> (old(table)@.contains_key(k)
                && final(table)@[k] == old(table)@[k]) || (final(table)@[k]@.len() <= code@.len()
                + tree_height(*edge) && vstd::utf8::is_ascii_chars(final(table)@[k]@)),
    decreases *edge,
{
    broadcast use vstd::laws_cmp::group_laws_cmp;

    match edge {
        HuffTree::Leaf(ch) => {
            table.insert(*ch, code);
        },
        HuffTree::Branch(a, b) => {
            proof {
                assert(1 + tree_height(**a) <= tree_height(*edge));
                assert(1 + tree_height(**b) <= tree_height(*edge));
            }
            let mut left_code = code.clone();
            string_push(&mut left_code, '0');
            let mut right_code = code;
            string_push(&mut right_code, '1');
            proof {
                assert(vstd::utf8::is_ascii_chars(left_code@)) by {
                    assert forall|i: int|
                        0 <= i < left_code@.len() implies '\0' <= #[trigger] left_code@[i]
                        <= '\u{7f}' by {
                        if i < code@.len() {
                            assert(left_code@[i] == code@[i]);
                        } else {
                            assert(left_code@[i] == '0');
                        }
                    }
                }
                assert(vstd::utf8::is_ascii_chars(right_code@)) by {
                    assert forall|i: int|
                        0 <= i < right_code@.len() implies '\0' <= #[trigger] right_code@[i]
                        <= '\u{7f}' by {
                        if i < code@.len() {
                            assert(right_code@[i] == code@[i]);
                        } else {
                            assert(right_code@[i] == '1');
                        }
                    }
                }
            }
            extract_character_codes(a, left_code, table);
            extract_character_codes(b, right_code, table);
        },
    }
}

} // verus!
