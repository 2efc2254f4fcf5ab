//! Huffman coding: building a code tree from character frequencies,
//! encoding characters as bit paths through the tree, and decoding bits
//! back into text.

use vstd::prelude::*;
use vstd::string::StrSliceExecFns;
use std::collections::HashMap;
use crate::bit_vector::Bit;

verus! {

/// A node of a Huffman code tree. A leaf holds one character; a branch
/// holds the characters of both children, left ones first.
#[derive(PartialEq, Eq, Debug)]
pub struct HuffNode {
    pub charaters: String,
    pub weight: u32,
    pub left: Option<Box<HuffNode>>,
    pub right: Option<Box<HuffNode>>,
}

impl HuffNode {
    /// The tree is shaped as the encoder and decoder expect: every leaf
    /// holds exactly one character, and every branch has two children whose
    /// character strings concatenate to its own.
    pub open spec fn wf(self) -> bool
        decreases self,
    {
        if self.left is None && self.right is None {
            self.charaters@.len() == 1
        } else {
            &&& self.left is Some
            &&& self.right is Some
            &&& self.left.unwrap().wf()
            &&& self.right.unwrap().wf()
            &&& self.charaters@ == self.left.unwrap().charaters@ + self.right.unwrap().charaters@
        }
    }

    pub fn is_leaf(&self) -> (r: bool)
        ensures
            r == (self.left is None && self.right is None),
    {
        self.left.is_none() && self.right.is_none()
    }

    pub fn new_leaf(charaters: String, weight: u32) -> (n: HuffNode)
        ensures
            n.charaters == charaters,
            n.weight == weight,
            n.left is None,
            n.right is None,
    {
        Self { charaters, weight, left: None, right: None }
    }

    pub fn new_branch(
        charaters: String,
        weight: u32,
        left: Option<HuffNode>,
        right: Option<HuffNode>,
    ) -> (n: HuffNode)
        ensures
            n.charaters == charaters,
            n.weight == weight,
            n.left matches Some(l) ==> left matches Some(lv) && *l == lv,
            n.left is None <==> left is None,
            n.right matches Some(r) ==> right matches Some(rv) && *r == rv,
            n.right is None <==> right is None,
    {
        Self {
            charaters,
            weight,
            left: match left {
                Some(n) => Some(Box::new(n)),
                None => None,
            },
            right: match right {
                Some(n) => Some(Box::new(n)),
                None => None,
            },
        }
    }
}

/// The bit path that the tree assigns to a character: left edges are
/// `Zero`, right edges are `One`; the left child is preferred when both
/// sides claim the character.
pub open spec fn code_of(t: HuffNode, ch: char) -> Seq<Bit>
    decreases t,
{
    if t.left is None && t.right is None {
        seq![]
    } else {
        match (t.left, t.right) {
            (Some(l), Some(r)) => if l.charaters@.contains(ch) {
                seq![Bit::Zero] + code_of(*l, ch)
            } else {
                seq![Bit::One] + code_of(*r, ch)
            },
            _ => seq![],
        }
    }
}

/// The same bit path written with the characters `'0'` and `'1'`.
pub open spec fn code_chars_of(t: HuffNode, ch: char) -> Seq<char>
    decreases t,
{
    if t.left is None && t.right is None {
        seq![]
    } else {
        match (t.left, t.right) {
            (Some(l), Some(r)) => if l.charaters@.contains(ch) {
                seq!['0'] + code_chars_of(*l, ch)
            } else {
                seq!['1'] + code_chars_of(*r, ch)
            },
            _ => seq![],
        }
    }
}

/// How often `c` occurs in `s`.
pub open spec fn count_of(s: Seq<char>, c: char) -> nat
    decreases s.len(),
{
    if s.len() == 0 {
        0
    } else {
        count_of(s.drop_last(), c) + if s.last() == c {
            1nat
        } else {
            0
        }
    }
}

proof fn lemma_wf_chars_len(t: HuffNode)
    requires
        t.wf(),
    ensures
        t.charaters@.len() >= 1,
    decreases t,
{
    if !(t.left is None && t.right is None) {
        lemma_wf_chars_len(*t.left.unwrap());
        lemma_wf_chars_len(*t.right.unwrap());
    }
}

proof fn lemma_count_le_len(s: Seq<char>, c: char)
    ensures
        count_of(s, c) <= s.len(),
    decreases s.len(),
{
    if s.len() > 0 {
        lemma_count_le_len(s.drop_last(), c);
    }
}

proof fn lemma_count_pos(s: Seq<char>, c: char)
    ensures
        count_of(s, c) > 0 <==> s.contains(c),
    decreases s.len(),
{
    if s.len() > 0 {
        lemma_count_pos(s.drop_last(), c);
        if s.contains(c) && s.last() != c {
            let i = choose|i: int| 0 <= i < s.len() && s[i] == c;
            assert(s.drop_last()[i] == c);
        }
    }
}

/// The sum of all counts in a frequency map.
pub open spec fn sum_weights(m: Map<char, u32>) -> int
    decreases m.dom().len(),
    when m.dom().finite()
{
    if m.dom().len() == 0 {
        0
    } else {
        let k = m.dom().choose();
        m[k] + sum_weights(m.remove(k))
    }
}

proof fn lemma_sum_weights_remove(m: Map<char, u32>, k: char)
    requires
        m.dom().finite(),
        m.contains_key(k),
    ensures
        sum_weights(m) == m[k] + sum_weights(m.remove(k)),
    decreases m.dom().len(),
{
    let k0 = m.dom().choose();
    assert(m.dom().contains(k));
    assert(m.dom().len() > 0);
    assert(m.dom().contains(k0));
    if k0 == k {
    } else {
        m.lemma_remove_key_len(k0);
        lemma_sum_weights_remove(m.remove(k0), k);
        lemma_sum_weights_remove(m.remove(k), k0);
        assert(m.remove(k0).remove(k) =~= m.remove(k).remove(k0));
    }
}

proof fn lemma_sum_weights_insert(m: Map<char, u32>, k: char, v: u32)
    requires
        m.dom().finite(),
    ensures
        sum_weights(m.insert(k, v)) == sum_weights(m) - (if m.contains_key(k) {
            m[k] as int
        } else {
            0
        }) + v,
{
    lemma_sum_weights_remove(m.insert(k, v), k);
    assert(m.insert(k, v).remove(k) =~= m.remove(k));
    if m.contains_key(k) {
        lemma_sum_weights_remove(m, k);
    } else {
        assert(m.remove(k) =~= m);
    }
}

/// Relies on `str::contains` with a character pattern: true exactly when
/// the character occurs in the string.
#[verifier::external_body]
fn str_contains_char(s: &str, ch: char) -> (r: bool)
    ensures
        r == s@.contains(ch),
{
    s.contains(ch)
}

/// Relies on `String::push_str`: appends the given slice to the string.
#[verifier::external_body]
fn string_push_str(s: &mut String, t: &str)
    ensures
        final(s)@ == old(s)@ + t@,
{
    s.push_str(t)
}

/// Relies on `char::to_string`: the one-character string of the character.
#[verifier::external_body]
fn char_to_string(c: char) -> (s: String)
    ensures
        s@ == seq![c],
{
    c.to_string()
}

/// Relies on `HashMap::get`: returns the value stored under the key, if
/// any. (The standard hash-map specifications are conditioned on a key
/// model that `vstd` does not provide for `char` keys.)
#[verifier::external_body]
fn char_map_get(m: &HashMap<char, u32>, k: char) -> (r: Option<u32>)
    ensures
        r == if m@.contains_key(k) {
            Some(m@[k])
        } else {
            None::<u32>
        },
{
    m.get(&k).copied()
}

/// Relies on `HashMap::insert`: maps the key to the value, keeping the
/// other entries.
#[verifier::external_body]
fn char_map_insert(m: &mut HashMap<char, u32>, k: char, v: u32)
    ensures
        final(m)@ == old(m)@.insert(k, v),
{
    m.insert(k, v);
}

/// Relies on `HashMap::iter`: yields each stored entry exactly once, in
/// some order.
#[verifier::external_body]
fn char_map_pairs(m: &HashMap<char, u32>) -> (v: Vec<(char, u32)>)
    ensures
        forall|i: int, j: int|
            0 <= i < v@.len() && 0 <= j < v@.len() && i != j ==> (#[trigger] v@[i]).0 != (
            #[trigger] v@[j]).0,
        forall|j: int|
            0 <= j < v@.len() ==> m@.contains_key((#[trigger] v@[j]).0) && m@[v@[j].0] == v@[j].1,
        forall|k: char| #[trigger]
            m@.contains_key(k) ==> exists|j: int| 0 <= j < v@.len() && (#[trigger] v@[j]).0 == k,
        v@.len() == m@.dom().len(),
{
    m.iter().map(|(k, v)| (*k, *v)).collect()
}

/// Reads the characters of a string slice out into a vector.
fn str_chars(s: &str) -> (v: Vec<char>)
    ensures
        v@ == s@,
{
    let mut v: Vec<char> = Vec::new();
    for c in it: s.chars()
        invariant
            it.seq() == s@,
            v@ =~= s@.subrange(0, it.index() as int),
    {
        v.push(c);
    }
    proof {
        assert(v@ =~= s@);
    }
    v
}

/// Counts how often each character occurs in the message.
pub fn frequency_count(message: &str) -> (counts: HashMap<char, u32>)
    requires
        message@.len() <= u32::MAX,
    ensures
        forall|c: char| #[trigger] counts@.contains_key(c) <==> message@.contains(c),
        forall|c: char| #[trigger]
            counts@.contains_key(c) ==> counts@[c] == count_of(message@, c),
        sum_weights(counts@) == message@.len(),
{
    let chars = str_chars(message);
    let mut counts: HashMap<char, u32> = HashMap::new();

    let ghost s = message@;
    let mut i: usize = 0;
    while i < chars.len()
        invariant
            chars@ == s,
            i <= s.len(),
            s.len() <= u32::MAX,
            counts@.dom().finite(),
            forall|c: char| #[trigger]
                counts@.contains_key(c) <==> s.subrange(0, i as int).contains(c),
            forall|c: char| #[trigger]
                counts@.contains_key(c) ==> counts@[c] == count_of(s.subrange(0, i as int), c),
            sum_weights(counts@) == i,
        decreases s.len() - i,
    {
        let ghost pre = s.subrange(0, i as int);
        let ghost post = s.subrange(0, i + 1);
        let ch = chars[i];
        proof {
            assert(post.drop_last() =~= pre);
            assert(post.last() == ch);
            lemma_count_le_len(pre, ch);
        }
        let count: u32 = match char_map_get(&counts, ch) {
            Some(c) => c + 1,
            None => 1,
        };
        proof {
            lemma_sum_weights_insert(counts@, ch, count);
            lemma_count_pos(pre, ch);
        }
        char_map_insert(&mut counts, ch, count);
        proof {
            assert forall|c: char| #[trigger] counts@.contains_key(c) implies post.contains(
                c,
            ) by {
                if c == ch {
                    assert(post[post.len() - 1] == ch);
                } else {
                    let j = choose|j: int| 0 <= j < pre.len() && pre[j] == c;
                    assert(post[j] == c);
                }
            }
            assert forall|c: char| post.contains(c) implies counts@.contains_key(c) by {
                if c != ch {
                    let j = choose|j: int| 0 <= j < post.len() && post[j] == c;
                    assert(pre[j] == c);
                }
            }
            assert forall|c: char| #[trigger] counts@.contains_key(c) implies counts@[c]
                == count_of(post, c) by {
                if c != ch {
                    assert(count_of(post, c) == count_of(pre, c));
                }
            }
        }
        i = i + 1;
    }
    proof {
        assert(s.subrange(0, s.len() as int) =~= s);
    }
    counts
}

/// Encodes a single character as the digits `'0'` and `'1'` of its bit
/// path, appended to `bits`.
pub fn encode_char(ch: char, coding: &HuffNode, bits: &mut Vec<char>)
    requires
        coding.wf(),
        coding.charaters@.contains(ch),
    ensures
        final(bits)@ == old(bits)@ + code_chars_of(*coding, ch),
    decreases *coding,
{
    if str_contains_char(coding.charaters.as_str(), ch) && coding.charaters.as_str().unicode_len()
        == 1 {
        proof {
            if !(coding.left is None && coding.right is None) {
                lemma_wf_chars_len(*coding.left.unwrap());
                lemma_wf_chars_len(*coding.right.unwrap());
                assert(false);
            }
            assert(bits@ =~= old(bits)@ + code_chars_of(*coding, ch));
        }
        return ;
    }
    proof {
        if coding.left is None && coding.right is None {
            assert(false);
        }
    }
    match (&coding.left, &coding.right) {
        (Some(l), Some(r)) => {
            if str_contains_char(l.charaters.as_str(), ch) {
                bits.push('0');
                encode_char(ch, l, bits);
                proof {
                    assert(old(bits)@.push('0') =~= old(bits)@ + seq!['0']);
                    assert(old(bits)@ + seq!['0'] + code_chars_of(**l, ch) =~= old(bits)@ + (
                    seq!['0'] + code_chars_of(**l, ch)));
                }
            } else {
                proof {
                    assert(coding.charaters@.contains(ch));
                    let i = choose|i: int|
                        0 <= i < coding.charaters@.len() && coding.charaters@[i] == ch;
                    if i < l.charaters@.len() {
                        assert(l.charaters@[i] == ch);
                        assert(false);
                    } else {
                        assert(r.charaters@[i - l.charaters@.len()] == ch);
                    }
                }
                bits.push('1');
                encode_char(ch, r, bits);
                proof {
                    assert(old(bits)@.push('1') =~= old(bits)@ + seq!['1']);
                    assert(old(bits)@ + seq!['1'] + code_chars_of(**r, ch) =~= old(bits)@ + (
                    seq!['1'] + code_chars_of(**r, ch)));
                }
            }
        },
        _ => {
            proof {
                assert(false);
            }
        },
    }
}

/// Encodes a single character as the bit path from the root to its leaf.
pub fn encode_char2(ch: char, coding: &HuffNode) -> (bits: Vec<Bit>)
    requires
        coding.wf(),
        coding.charaters@.contains(ch),
    ensures
        bits@ == code_of(*coding, ch),
{
    let mut bits: Vec<Bit> = Vec::new();

    let mut curr: &HuffNode = coding;

    while !curr.is_leaf()
        invariant
            curr.wf(),
            curr.charaters@.contains(ch),
            code_of(*coding, ch) == bits@ + code_of(*curr, ch),
        decreases *curr,
    {
        match (&curr.left, &curr.right) {
            (Some(l), Some(r)) => {
                let ghost prev = *curr;
                let ghost bits0 = bits@;
                if str_contains_char(l.charaters.as_str(), ch) {
                    bits.push(Bit::Zero);
                    curr = l;
                    proof {
                        assert(code_of(prev, ch) == seq![Bit::Zero] + code_of(*curr, ch));
                        assert(bits0 + (seq![Bit::Zero] + code_of(*curr, ch)) =~= bits@ + code_of(
                            *curr,
                            ch,
                        ));
                    }
                } else {
                    proof {
                        let i = choose|i: int|
                            0 <= i < prev.charaters@.len() && prev.charaters@[i] == ch;
                        if i < l.charaters@.len() {
                            assert(l.charaters@[i] == ch);
                            assert(false);
                        } else {
                            assert(r.charaters@[i - l.charaters@.len()] == ch);
                        }
                    }
                    bits.push(Bit::One);
                    curr = r;
                    proof {
                        assert(code_of(prev, ch) == seq![Bit::One] + code_of(*curr, ch));
                        assert(bits0 + (seq![Bit::One] + code_of(*curr, ch)) =~= bits@ + code_of(
                            *curr,
                            ch,
                        ));
                    }
                }
            },
            _ => {
                proof {
                    assert(false);
                }
            },
        }
    }
    proof {
        assert(bits@ + code_of(*curr, ch) =~= bits@);
    }
    bits
}

/// The encoding of a whole text: the concatenation of each character's
/// bit path.
pub open spec fn encoded_bits(s: Seq<char>, t: HuffNode) -> Seq<Bit>
    decreases s.len(),
{
    if s.len() == 0 {
        seq![]
    } else {
        encoded_bits(s.drop_last(), t) + code_of(t, s.last())
    }
}

/// The encoding of a whole text written with the characters `'0'` and
/// `'1'`.
pub open spec fn encoded_chars(s: Seq<char>, t: HuffNode) -> Seq<char>
    decreases s.len(),
{
    if s.len() == 0 {
        seq![]
    } else {
        encoded_chars(s.drop_last(), t) + code_chars_of(t, s.last())
    }
}

/// Encodes a text as the concatenation of its characters' bit paths.
pub fn encode_data2(data: &str, coding: &HuffNode) -> (r: Vec<Bit>)
    requires
        coding.wf(),
        forall|i: int| 0 <= i < data@.len() ==> coding.charaters@.contains(#[trigger] data@[i]),
    ensures
        r@ == encoded_bits(data@, *coding),
{
    let chars = str_chars(data);
    let mut r: Vec<Bit> = Vec::new();
    let mut i: usize = 0;
    while i < chars.len()
        invariant
            coding.wf(),
            chars@ == data@,
            forall|j: int| 0 <= j < data@.len() ==> coding.charaters@.contains(#[trigger] data@[j]),
            i <= data@.len(),
            r@ == encoded_bits(data@.subrange(0, i as int), *coding),
        decreases chars@.len() - i,
    {
        let ghost r0 = r@;
        let code = encode_char2(chars[i], coding);
        let mut j: usize = 0;
        while j < code.len()
            invariant
                j <= code@.len(),
                r@ == r0 + code@.subrange(0, j as int),
            decreases code@.len() - j,
        {
            let ghost rj = r@;
            r.push(code[j]);
            proof {
                assert(rj.push(code@[j as int]) =~= r0 + code@.subrange(0, j + 1));
            }
            j = j + 1;
        }
        proof {
            assert(code@.subrange(0, code@.len() as int) =~= code@);
            assert(data@.subrange(0, i + 1).drop_last() =~= data@.subrange(0, i as int));
            assert(data@.subrange(0, i + 1).last() == data@[i as int]);
        }
        i = i + 1;
    }
    proof {
        assert(data@.subrange(0, data@.len() as int) =~= data@);
    }
    r
}

/// Encodes a text as the digits `'0'` and `'1'` of its characters' bit
/// paths.
pub fn encode_data(data: &str, coding: &HuffNode) -> (r: Vec<char>)
    requires
        coding.wf(),
        forall|i: int| 0 <= i < data@.len() ==> coding.charaters@.contains(#[trigger] data@[i]),
    ensures
        r@ == encoded_chars(data@, *coding),
{
    let chars: Vec<char> = str_chars(data);

    let mut r: Vec<char> = Vec::new();
    let mut i: usize = 0;
    while i < chars.len()
        invariant
            coding.wf(),
            chars@ == data@,
            forall|j: int| 0 <= j < data@.len() ==> coding.charaters@.contains(#[trigger] data@[j]),
            i <= data@.len(),
            r@ == encoded_chars(data@.subrange(0, i as int), *coding),
        decreases chars@.len() - i,
    {
        encode_char(chars[i], coding, &mut r);
        proof {
            assert(data@.subrange(0, i + 1).drop_last() =~= data@.subrange(0, i as int));
            assert(data@.subrange(0, i + 1).last() == data@[i as int]);
        }
        i = i + 1;
    }
    proof {
        assert(data@.subrange(0, data@.len() as int) =~= data@);
    }
    r
}

/// What decoding a bit sequence yields: bits steer a walk from the root;
/// reaching a leaf emits its character and restarts at the root. Bits that
/// end mid-walk are dropped.
pub open spec fn decoded_from(root: HuffNode, curr: HuffNode, bits: Seq<Bit>) -> Seq<char>
    decreases bits.len(),
{
    if bits.len() == 0 {
        seq![]
    } else {
        let child = if bits[0] == Bit::Zero {
            *curr.left.unwrap()
        } else {
            *curr.right.unwrap()
        };
        if child.left is None && child.right is None {
            child.charaters@ + decoded_from(root, root, bits.drop_first())
        } else {
            decoded_from(root, child, bits.drop_first())
        }
    }
}

/// Decodes a bit sequence by walking the tree, emitting a leaf's character
/// whenever one is reached and restarting at the root.
pub fn decode_bits(bits: &Vec<Bit>, coding: &HuffNode) -> (out: String)
    requires
        coding.wf(),
        !(coding.left is None && coding.right is None),
    ensures
        out@ == decoded_from(*coding, *coding, bits@),
{
    let mut curr: &HuffNode = coding;
    let mut out: String = String::new();

    proof {
        assert(bits@.subrange(0, bits@.len() as int) =~= bits@);
        assert(out@ + decoded_from(*coding, *coding, bits@) =~= decoded_from(
            *coding,
            *coding,
            bits@,
        ));
    }

    let mut i: usize = 0;
    while i < bits.len()
        invariant
            coding.wf(),
            curr.wf(),
            !(coding.left is None && coding.right is None),
            !(curr.left is None && curr.right is None),
            i <= bits@.len(),
            decoded_from(*coding, *coding, bits@) == out@ + decoded_from(
                *coding,
                *curr,
                bits@.subrange(i as int, bits@.len() as int),
            ),
        decreases bits@.len() - i,
    {
        let ghost suffix = bits@.subrange(i as int, bits@.len() as int);
        let ghost out0 = out@;
        let ghost prev = *curr;
        let is_zero = match bits[i] {
            Bit::Zero => true,
            Bit::One => false,
        };
        proof {
            assert(suffix[0] == bits@[i as int]);
            assert(suffix.drop_first() =~= bits@.subrange(i + 1, bits@.len() as int));
        }
        match (&curr.left, &curr.right) {
            (Some(l), Some(r)) => {
                if is_zero {
                    curr = l;
                } else {
                    curr = r;
                }
            },
            _ => {
                proof {
                    assert(false);
                }
            },
        }

        if curr.is_leaf() {
            string_push_str(&mut out, curr.charaters.as_str());
            let ghost emitted = curr.charaters@;
            curr = coding;
            proof {
                assert(decoded_from(*coding, prev, suffix) == emitted + decoded_from(
                    *coding,
                    *coding,
                    suffix.drop_first(),
                ));
                assert(out0 + (emitted + decoded_from(*coding, *coding, suffix.drop_first()))
                    =~= (out0 + emitted) + decoded_from(*coding, *coding, suffix.drop_first()));
            }
        } else {
            proof {
                assert(decoded_from(*coding, prev, suffix) == decoded_from(
                    *coding,
                    *curr,
                    suffix.drop_first(),
                ));
            }
        }
        i = i + 1;
    }
    proof {
        assert(bits@.subrange(i as int, bits@.len() as int) =~= Seq::<Bit>::empty());
        assert(out@ + Seq::<char>::empty() =~= out@);
    }
    out
}

/// The order on strings: lexicographic by character.
pub open spec fn lex_lt(a: Seq<char>, b: Seq<char>) -> bool
    decreases a.len(),
{
    if a.len() == 0 {
        b.len() > 0
    } else if b.len() == 0 {
        false
    } else if a[0] != b[0] {
        (a[0] as u32) < (b[0] as u32)
    } else {
        lex_lt(a.drop_first(), b.drop_first())
    }
}

fn str_lt_from(a: &str, b: &str, i: usize) -> (r: bool)
    requires
        i <= a@.len(),
        i <= b@.len(),
    ensures
        r == lex_lt(
            a@.subrange(i as int, a@.len() as int),
            b@.subrange(i as int, b@.len() as int),
        ),
    decreases a@.len() - i,
{
    let ghost sa = a@.subrange(i as int, a@.len() as int);
    let ghost sb = b@.subrange(i as int, b@.len() as int);
    let an = a.unicode_len();
    let bn = b.unicode_len();
    if i >= an {
        i < bn
    } else if i >= bn {
        false
    } else {
        let ca = a.get_char(i);
        let cb = b.get_char(i);
        proof {
            assert(sa[0] == a@[i as int]);
            assert(sb[0] == b@[i as int]);
        }
        if ca != cb {
            (ca as u32) < (cb as u32)
        } else {
            let r = str_lt_from(a, b, i + 1);
            proof {
                assert(sa.drop_first() =~= a@.subrange(i + 1, a@.len() as int));
                assert(sb.drop_first() =~= b@.subrange(i + 1, b@.len() as int));
            }
            r
        }
    }
}

/// Compares two strings lexicographically by character.
fn str_lt(a: &str, b: &str) -> (r: bool)
    ensures
        r == lex_lt(a@, b@),
{
    let r = str_lt_from(a, b, 0);
    proof {
        assert(a@.subrange(0, a@.len() as int) =~= a@);
        assert(b@.subrange(0, b@.len() as int) =~= b@);
    }
    r
}

/// Every branch weighs exactly as much as its two children together.
pub open spec fn weights_consistent(t: HuffNode) -> bool
    decreases t,
{
    if t.left is None && t.right is None {
        true
    } else {
        &&& t.left is Some
        &&& t.right is Some
        &&& t.weight == t.left.unwrap().weight + t.right.unwrap().weight
        &&& weights_consistent(*t.left.unwrap())
        &&& weights_consistent(*t.right.unwrap())
    }
}

/// Every leaf carries the frequency that the map records for its
/// character.
pub open spec fn leaf_weight_ok(t: HuffNode, m: Map<char, u32>) -> bool
    decreases t,
{
    if t.left is None && t.right is None {
        m.contains_key(t.charaters@[0]) && t.weight == m[t.charaters@[0]]
    } else {
        &&& t.left is Some
        &&& t.right is Some
        &&& leaf_weight_ok(*t.left.unwrap(), m)
        &&& leaf_weight_ok(*t.right.unwrap(), m)
    }
}

/// Every leaf carries the number of occurrences of its character in the
/// text.
pub open spec fn leaf_counts_match(t: HuffNode, s: Seq<char>) -> bool
    decreases t,
{
    if t.left is None && t.right is None {
        t.weight == count_of(s, t.charaters@[0])
    } else {
        &&& t.left is Some
        &&& t.right is Some
        &&& leaf_counts_match(*t.left.unwrap(), s)
        &&& leaf_counts_match(*t.right.unwrap(), s)
    }
}

proof fn lemma_leaf_weights_to_counts(t: HuffNode, m: Map<char, u32>, s: Seq<char>)
    requires
        leaf_weight_ok(t, m),
        forall|c: char| #[trigger] m.contains_key(c) ==> m[c] == count_of(s, c),
    ensures
        leaf_counts_match(t, s),
    decreases t,
{
    if !(t.left is None && t.right is None) {
        lemma_leaf_weights_to_counts(*t.left.unwrap(), m, s);
        lemma_leaf_weights_to_counts(*t.right.unwrap(), m, s);
    }
}

/// The total weight of a sequence of trees.
pub open spec fn nodes_weight(s: Seq<HuffNode>) -> int
    decreases s.len(),
{
    if s.len() == 0 {
        0
    } else {
        s[0].weight + nodes_weight(s.drop_first())
    }
}

/// The characters of a sequence of trees, concatenated.
pub open spec fn nodes_chars(s: Seq<HuffNode>) -> Seq<char>
    decreases s.len(),
{
    if s.len() == 0 {
        seq![]
    } else {
        s[0].charaters@ + nodes_chars(s.drop_first())
    }
}

proof fn lemma_nodes_weight_concat(a: Seq<HuffNode>, b: Seq<HuffNode>)
    ensures
        nodes_weight(a + b) == nodes_weight(a) + nodes_weight(b),
    decreases a.len(),
{
    if a.len() == 0 {
        assert(a + b =~= b);
    } else {
        lemma_nodes_weight_concat(a.drop_first(), b);
        assert((a + b).drop_first() =~= a.drop_first() + b);
    }
}

proof fn lemma_nodes_chars_concat(a: Seq<HuffNode>, b: Seq<HuffNode>)
    ensures
        nodes_chars(a + b) == nodes_chars(a) + nodes_chars(b),
    decreases a.len(),
{
    if a.len() == 0 {
        assert(a + b =~= b);
        assert(nodes_chars(a) + nodes_chars(b) =~= nodes_chars(b));
    } else {
        lemma_nodes_chars_concat(a.drop_first(), b);
        assert((a + b).drop_first() =~= a.drop_first() + b);
        assert(nodes_chars(a + b) =~= nodes_chars(a) + nodes_chars(b));
    }
}

proof fn lemma_nodes_singleton(n: HuffNode)
    ensures
        nodes_weight(seq![n]) == n.weight,
        nodes_chars(seq![n]) == n.charaters@,
{
    assert(seq![n].drop_first() =~= Seq::<HuffNode>::empty());
    assert(nodes_weight(Seq::<HuffNode>::empty()) == 0);
    assert(nodes_chars(Seq::<HuffNode>::empty()) == Seq::<char>::empty());
    assert(nodes_chars(seq![n]) =~= n.charaters@);
}

proof fn lemma_nodes_weight_nonneg(s: Seq<HuffNode>)
    ensures
        nodes_weight(s) >= 0,
    decreases s.len(),
{
    if s.len() > 0 {
        lemma_nodes_weight_nonneg(s.drop_first());
    }
}

/// Splitting one tree out of the pool splits its weight and characters
/// off the pool's totals.
proof fn lemma_nodes_remove(q: Seq<HuffNode>, m: int)
    requires
        0 <= m < q.len(),
    ensures
        nodes_weight(q) == q[m].weight + nodes_weight(q.remove(m)),
        nodes_chars(q).to_multiset() == q[m].charaters@.to_multiset().add(
            nodes_chars(q.remove(m)).to_multiset(),
        ),
{
    broadcast use vstd::multiset::group_multiset_axioms;

    let a = q.subrange(0, m);
    let b = q.subrange(m + 1, q.len() as int);
    assert(q =~= (a + seq![q[m]]) + b);
    lemma_nodes_weight_concat(a + seq![q[m]], b);
    lemma_nodes_weight_concat(a, seq![q[m]]);
    lemma_nodes_chars_concat(a + seq![q[m]], b);
    lemma_nodes_chars_concat(a, seq![q[m]]);
    lemma_nodes_singleton(q[m]);
    assert(q.remove(m) =~= a + b);
    lemma_nodes_weight_concat(a, b);
    lemma_nodes_chars_concat(a, b);
    vstd::seq_lib::lemma_multiset_commutative(nodes_chars(a) + q[m].charaters@, nodes_chars(b));
    vstd::seq_lib::lemma_multiset_commutative(nodes_chars(a), q[m].charaters@);
    vstd::seq_lib::lemma_multiset_commutative(nodes_chars(a), nodes_chars(b));
    assert(nodes_chars(q).to_multiset() =~= q[m].charaters@.to_multiset().add(
        nodes_chars(q.remove(m)).to_multiset(),
    ));
}

proof fn lemma_nodes_push(q: Seq<HuffNode>, n: HuffNode)
    ensures
        nodes_weight(q.push(n)) == nodes_weight(q) + n.weight,
        nodes_chars(q.push(n)).to_multiset() == nodes_chars(q).to_multiset().add(
            n.charaters@.to_multiset(),
        ),
{
    broadcast use vstd::multiset::group_multiset_axioms;

    assert(q.push(n) =~= q + seq![n]);
    lemma_nodes_weight_concat(q, seq![n]);
    lemma_nodes_chars_concat(q, seq![n]);
    lemma_nodes_singleton(n);
    vstd::seq_lib::lemma_multiset_commutative(nodes_chars(q), n.charaters@);
}

/// The sum of the values of a pair list.
pub open spec fn pair_sum(ps: Seq<(char, u32)>) -> int
    decreases ps.len(),
{
    if ps.len() == 0 {
        0
    } else {
        pair_sum(ps.drop_last()) + ps.last().1
    }
}

/// A pair list that enumerates a map exactly sums to the map's total.
proof fn lemma_pairs_sum(m: Map<char, u32>, ps: Seq<(char, u32)>)
    requires
        m.dom().finite(),
        forall|i: int, j: int|
            0 <= i < ps.len() && 0 <= j < ps.len() && i != j ==> (#[trigger] ps[i]).0 != (
            #[trigger] ps[j]).0,
        forall|j: int| 0 <= j < ps.len() ==> m.contains_key((#[trigger] ps[j]).0) && m[ps[j].0]
            == ps[j].1,
        forall|k: char| #[trigger]
            m.contains_key(k) ==> exists|j: int| 0 <= j < ps.len() && (#[trigger] ps[j]).0 == k,
        ps.len() == m.dom().len(),
    ensures
        pair_sum(ps) == sum_weights(m),
    decreases ps.len(),
{
    if ps.len() == 0 {
        assert(sum_weights(m) == 0);
    } else {
        let (k, v) = ps.last();
        lemma_sum_weights_remove(m, k);
        m.lemma_remove_key_len(k);
        let m1 = m.remove(k);
        let ps1 = ps.drop_last();
        assert forall|kk: char| #[trigger] m1.contains_key(kk) implies exists|j: int|
            0 <= j < ps1.len() && (#[trigger] ps1[j]).0 == kk by {
            let j = choose|j: int| 0 <= j < ps.len() && (#[trigger] ps[j]).0 == kk;
            assert(j != ps.len() - 1);
            assert(ps1[j].0 == kk);
        }
        lemma_pairs_sum(m1, ps1);
    }
}

/// Builds the Huffman code tree for the given character frequencies:
/// repeatedly merges the two lowest-weight trees, preferring the earliest
/// entries on equal weight and ordering equal-weight pairs by their
/// character strings.
pub fn code_tree(counts: &HashMap<char, u32>) -> (r: HuffNode)
    requires
        counts@.dom().len() >= 1,
        sum_weights(counts@) <= u32::MAX,
    ensures
        r.wf(),
        r.weight == sum_weights(counts@),
        r.charaters@.to_set() == counts@.dom(),
        r.charaters@.no_duplicates(),
        weights_consistent(r),
        leaf_weight_ok(r, counts@),
{
    broadcast use vstd::multiset::group_multiset_axioms;
    broadcast use vstd::seq_lib::group_to_multiset_ensures;

    let pairs = char_map_pairs(counts);
    let ghost keys = pairs@.map_values(|p: (char, u32)| p.0);
    let ghost total = sum_weights(counts@);

    proof {
        lemma_pairs_sum(counts@, pairs@);
        assert forall|x: char| keys.to_set().contains(x) implies counts@.dom().contains(x) by {
            let j = choose|j: int| 0 <= j < keys.len() && keys[j] == x;
            assert(pairs@[j].0 == x);
        }
        assert forall|x: char| counts@.dom().contains(x) implies keys.to_set().contains(x) by {
            let j = choose|j: int| 0 <= j < pairs@.len() && (#[trigger] pairs@[j]).0 == x;
            assert(keys[j] == x);
        }
        assert(keys.to_set() =~= counts@.dom());
    }

    // One leaf for each symbol, weighted by its frequency.
    let mut queue: Vec<HuffNode> = Vec::new();
    let mut i: usize = 0;
    while i < pairs.len()
        invariant
            i <= pairs@.len(),
            keys == pairs@.map_values(|p: (char, u32)| p.0),
            forall|j: int|
                0 <= j < pairs@.len() ==> counts@.contains_key((#[trigger] pairs@[j]).0)
                    && counts@[pairs@[j].0] == pairs@[j].1,
            queue@.len() == i,
            forall|j: int| 0 <= j < queue@.len() ==> (#[trigger] queue@[j]).wf(),
            forall|j: int|
                0 <= j < queue@.len() ==> weights_consistent(#[trigger] queue@[j])
                    && leaf_weight_ok(queue@[j], counts@),
            nodes_weight(queue@) == pair_sum(pairs@.subrange(0, i as int)),
            nodes_chars(queue@) == keys.subrange(0, i as int),
        decreases pairs@.len() - i,
    {
        let ghost q0 = queue@;
        let leaf = HuffNode {
            charaters: char_to_string(pairs[i].0),
            weight: pairs[i].1,
            left: None,
            right: None,
        };
        queue.push(leaf);
        proof {
            lemma_nodes_push(q0, leaf);
            assert(leaf.charaters@[0] == pairs@[i as int].0);
            assert(weights_consistent(leaf));
            assert(counts@.contains_key(pairs@[i as int].0));
            assert(leaf_weight_ok(leaf, counts@));
            assert forall|j: int| 0 <= j < queue@.len() implies weights_consistent(
                #[trigger] queue@[j],
            ) && leaf_weight_ok(queue@[j], counts@) by {
                if j < q0.len() {
                    assert(queue@[j] == q0[j]);
                } else {
                    assert(queue@[j] == leaf);
                }
            }
            assert(queue@ =~= q0.push(leaf));
            assert(q0.push(leaf) =~= q0 + seq![leaf]);
            lemma_nodes_chars_concat(q0, seq![leaf]);
            lemma_nodes_singleton(leaf);
            assert(pairs@.subrange(0, i + 1).drop_last() =~= pairs@.subrange(0, i as int));
            assert(nodes_chars(queue@) =~= keys.subrange(0, i + 1));
        }
        i = i + 1;
    }
    proof {
        assert(pairs@.subrange(0, pairs@.len() as int) =~= pairs@);
        assert(keys.subrange(0, keys.len() as int) =~= keys);
        assert(nodes_chars(queue@).to_multiset() == keys.to_multiset());
    }

    // Merge the two lightest trees until one remains.
    while queue.len() > 1
        invariant
            queue@.len() >= 1,
            total <= u32::MAX,
            forall|j: int| 0 <= j < queue@.len() ==> (#[trigger] queue@[j]).wf(),
            forall|j: int|
                0 <= j < queue@.len() ==> weights_consistent(#[trigger] queue@[j])
                    && leaf_weight_ok(queue@[j], counts@),
            nodes_weight(queue@) == total,
            nodes_chars(queue@).to_multiset() == keys.to_multiset(),
        decreases queue@.len(),
    {
        let mut m1: usize = 0;
        let mut j: usize = 1;
        while j < queue.len()
            invariant
                queue@.len() >= 1,
                m1 < j <= queue@.len(),
                forall|k: int|
                    0 <= k < j ==> queue@[m1 as int].weight <= (#[trigger] queue@[k]).weight,
            decreases queue@.len() - j,
        {
            if queue[j].weight < queue[m1].weight {
                m1 = j;
            }
            j = j + 1;
        }
        let ghost qa = queue@;
        let n1 = queue.remove(m1);
        proof {
            lemma_nodes_remove(qa, m1 as int);
            assert forall|j: int| 0 <= j < queue@.len() implies (#[trigger] queue@[j]).wf()
                && weights_consistent(queue@[j]) && leaf_weight_ok(queue@[j], counts@) by {
                if j < m1 {
                    assert(queue@[j] == qa[j]);
                } else {
                    assert(queue@[j] == qa[j + 1]);
                }
            }
        }

        let mut m2: usize = 0;
        let mut j2: usize = 1;
        while j2 < queue.len()
            invariant
                queue@.len() >= 1,
                m2 < j2 <= queue@.len(),
                forall|k: int|
                    0 <= k < j2 ==> queue@[m2 as int].weight <= (#[trigger] queue@[k]).weight,
            decreases queue@.len() - j2,
        {
            if queue[j2].weight < queue[m2].weight {
                m2 = j2;
            }
            j2 = j2 + 1;
        }
        let ghost qb = queue@;
        let n2 = queue.remove(m2);
        proof {
            lemma_nodes_remove(qb, m2 as int);
            lemma_nodes_weight_nonneg(queue@);
            assert(n1.weight + n2.weight <= total);
            assert forall|j: int| 0 <= j < queue@.len() implies (#[trigger] queue@[j]).wf()
                && weights_consistent(queue@[j]) && leaf_weight_ok(queue@[j], counts@) by {
                if j < m2 {
                    assert(queue@[j] == qb[j]);
                } else {
                    assert(queue@[j] == qb[j + 1]);
                }
            }
        }

        // Order the pair by its character strings when the weights tie.
        let ghost g1 = n1;
        let ghost g2 = n2;
        let swap = n1.weight == n2.weight && str_lt(n2.charaters.as_str(), n1.charaters.as_str());
        let (a, b) = if swap {
            (n2, n1)
        } else {
            (n1, n2)
        };
        let ghost ga = a;
        let ghost gb = b;

        let mut characters = a.charaters.clone();
        string_push_str(&mut characters, b.charaters.as_str());

        let ghost qc = queue@;
        let branch = HuffNode {
            charaters: characters,
            weight: a.weight + b.weight,
            left: Some(Box::new(a)),
            right: Some(Box::new(b)),
        };
        let ghost gbr = branch;
        queue.push(branch);
        proof {
            lemma_nodes_push(qc, branch);
            assert(branch.wf());
            assert(*gbr.left.unwrap() == ga && *gbr.right.unwrap() == gb);
            assert(weights_consistent(ga) && weights_consistent(gb));
            assert(leaf_weight_ok(ga, counts@) && leaf_weight_ok(gb, counts@));
            assert(weights_consistent(gbr));
            assert(leaf_weight_ok(gbr, counts@));
            assert forall|j: int| 0 <= j < queue@.len() implies weights_consistent(
                #[trigger] queue@[j],
            ) && leaf_weight_ok(queue@[j], counts@) by {
                if j < qc.len() {
                    assert(queue@[j] == qc[j]);
                } else {
                    assert(queue@[j] == gbr);
                }
            }
            assert(branch.charaters@.to_multiset() =~= a.charaters@.to_multiset().add(
                b.charaters@.to_multiset(),
            )) by {
                vstd::seq_lib::lemma_multiset_commutative(a.charaters@, b.charaters@);
            }
            assert(nodes_chars(queue@).to_multiset() =~= keys.to_multiset());
        }
    }

    let ghost qfin = queue@;
    let r = match queue.pop() {
        Some(r) => r,
        None => {
            proof {
                assert(false);
            }
            HuffNode { charaters: String::new(), weight: 0, left: None, right: None }
        },
    };
    proof {
        assert(qfin =~= seq![r]);
        assert(nodes_weight(seq![r]) == total);
        assert(nodes_chars(seq![r]).to_multiset() == keys.to_multiset());
        lemma_nodes_singleton(r);
        assert forall|i: int, j: int|
            0 <= i < keys.len() && 0 <= j < keys.len() && i != j implies keys[i] != keys[j] by {
            assert(pairs@[i].0 != pairs@[j].0);
        }
        keys.lemma_multiset_has_no_duplicates();
        r.charaters@.lemma_multiset_has_no_duplicates_conv();
        assert forall|x: char| r.charaters@.to_set().contains(x) implies keys.to_set().contains(
            x,
        ) by {
            assert(r.charaters@.to_multiset().contains(x));
            assert(keys.to_multiset().contains(x));
        }
        assert forall|x: char| keys.to_set().contains(x) implies r.charaters@.to_set().contains(
            x,
        ) by {
            assert(keys.to_multiset().contains(x));
            assert(r.charaters@.to_multiset().contains(x));
        }
        assert(r.charaters@.to_set() =~= keys.to_set());
    }
    r
}

/// Builds the Huffman code tree of a text from its character frequencies.
pub fn build(data: &str) -> (tree: HuffNode)
    requires
        data@.len() >= 1,
        data@.len() <= u32::MAX,
    ensures
        tree.wf(),
        tree.weight == data@.len(),
        forall|c: char| tree.charaters@.contains(c) <==> data@.contains(c),
        tree.charaters@.no_duplicates(),
        weights_consistent(tree),
        leaf_counts_match(tree, data@),
{
    let counts = frequency_count(&data);
    proof {
        assert(data@.contains(data@[0]));
        assert(counts@.contains_key(data@[0]));
        if counts@.dom().len() == 0 {
            counts@.dom().lemma_len0_is_empty();
        }
    }
    let tree = code_tree(&counts);
    proof {
        lemma_leaf_weights_to_counts(tree, counts@, data@);
        assert forall|c: char| tree.charaters@.contains(c) implies data@.contains(c) by {
            assert(tree.charaters@.to_set().contains(c));
        }
        assert forall|c: char| data@.contains(c) implies tree.charaters@.contains(c) by {
            assert(counts@.dom().contains(c));
            assert(tree.charaters@.to_set().contains(c));
        }
    }
    tree
}

proof fn lemma_leaf_chars(t: HuffNode, ch: char)
    requires
        t.wf(),
        t.left is None && t.right is None,
        t.charaters@.contains(ch),
    ensures
        t.charaters@ == seq![ch],
{
    let i = choose|i: int| 0 <= i < t.charaters@.len() && t.charaters@[i] == ch;
    assert(i == 0);
    assert(t.charaters@ =~= seq![ch]);
}

/// Walking a character's own bit path from `t` emits exactly that
/// character and leaves the remaining bits to be decoded from the root.
proof fn lemma_decode_code(root: HuffNode, t: HuffNode, ch: char, rest: Seq<Bit>)
    requires
        root.wf(),
        !(root.left is None && root.right is None),
        t.wf(),
        !(t.left is None && t.right is None),
        t.charaters@.contains(ch),
    ensures
        decoded_from(root, t, code_of(t, ch) + rest) == seq![ch] + decoded_from(root, root, rest),
    decreases t,
{
    let l = *t.left.unwrap();
    let r = *t.right.unwrap();
    let go_left = l.charaters@.contains(ch);
    if !go_left {
        let i = choose|i: int| 0 <= i < t.charaters@.len() && t.charaters@[i] == ch;
        if i < l.charaters@.len() {
            assert(l.charaters@[i] == ch);
            assert(false);
        } else {
            assert(r.charaters@[i - l.charaters@.len()] == ch);
        }
    }
    let child = if go_left { l } else { r };
    let bit = if go_left { Bit::Zero } else { Bit::One };
    let bits = code_of(t, ch) + rest;
    assert(bits[0] == bit);
    assert(bits.drop_first() =~= code_of(child, ch) + rest);
    if child.left is None && child.right is None {
        assert(code_of(child, ch) =~= Seq::<Bit>::empty());
        assert(code_of(child, ch) + rest =~= rest);
        lemma_leaf_chars(child, ch);
        assert(decoded_from(root, t, bits) == child.charaters@ + decoded_from(
            root,
            root,
            rest,
        ));
    } else {
        lemma_decode_code(root, child, ch, rest);
    }
}

/// A text's encoding decomposes at the front: the first character's path
/// followed by the encoding of the rest.
proof fn lemma_encoded_bits_first(s: Seq<char>, t: HuffNode)
    requires
        s.len() >= 1,
    ensures
        encoded_bits(s, t) == code_of(t, s[0]) + encoded_bits(s.drop_first(), t),
    decreases s.len(),
{
    if s.len() == 1 {
        assert(s.drop_last() =~= Seq::<char>::empty());
        assert(s.drop_first() =~= Seq::<char>::empty());
        assert(encoded_bits(Seq::<char>::empty(), t) == Seq::<Bit>::empty());
        assert(code_of(t, s[0]) + Seq::<Bit>::empty() =~= code_of(t, s[0]));
        assert(s.last() == s[0]);
    } else {
        let dl = s.drop_last();
        lemma_encoded_bits_first(dl, t);
        assert(s.drop_first().drop_last() =~= dl.drop_first());
        assert(s.drop_first().last() == s.last());
        assert(dl[0] == s[0]);
        assert((code_of(t, s[0]) + encoded_bits(dl.drop_first(), t)) + code_of(t, s.last())
            =~= code_of(t, s[0]) + (encoded_bits(dl.drop_first(), t) + code_of(t, s.last())));
    }
}

proof fn lemma_decode_encoded_prefix(tree: HuffNode, data: Seq<char>, rest: Seq<Bit>)
    requires
        tree.wf(),
        !(tree.left is None && tree.right is None),
        forall|i: int| 0 <= i < data.len() ==> tree.charaters@.contains(#[trigger] data[i]),
    ensures
        decoded_from(tree, tree, encoded_bits(data, tree) + rest) == data + decoded_from(
            tree,
            tree,
            rest,
        ),
    decreases data.len(),
{
    if data.len() == 0 {
        assert(encoded_bits(data, tree) + rest =~= rest);
        assert(data + decoded_from(tree, tree, rest) =~= decoded_from(tree, tree, rest));
    } else {
        lemma_encoded_bits_first(data, tree);
        assert((code_of(tree, data[0]) + encoded_bits(data.drop_first(), tree)) + rest
            =~= code_of(tree, data[0]) + (encoded_bits(data.drop_first(), tree) + rest));
        lemma_decode_code(tree, tree, data[0], encoded_bits(data.drop_first(), tree) + rest);
        assert(forall|i: int|
            0 <= i < data.drop_first().len() ==> tree.charaters@.contains(
                #[trigger] data.drop_first()[i],
            ));
        lemma_decode_encoded_prefix(tree, data.drop_first(), rest);
        assert(seq![data[0]] + (data.drop_first() + decoded_from(tree, tree, rest)) =~= data
            + decoded_from(tree, tree, rest));
    }
}

/// Decoding inverts encoding: for a well-formed code tree with at least
/// two leaves, decoding the encoding of a text whose characters the tree
/// covers gives the text back.
pub proof fn lemma_encode_decode_round_trip(tree: HuffNode, data: Seq<char>)
    requires
        tree.wf(),
        !(tree.left is None && tree.right is None),
        forall|i: int| 0 <= i < data.len() ==> tree.charaters@.contains(#[trigger] data[i]),
    ensures
        decoded_from(tree, tree, encoded_bits(data, tree)) == data,
{
    lemma_decode_encoded_prefix(tree, data, Seq::<Bit>::empty());
    assert(encoded_bits(data, tree) + Seq::<Bit>::empty() =~= encoded_bits(data, tree));
    assert(decoded_from(tree, tree, Seq::<Bit>::empty()) == Seq::<char>::empty());
    assert(data + Seq::<char>::empty() =~= data);
}

/// The digit a bit is written as.
pub open spec fn bit_char(b: Bit) -> char {
    match b {
        Bit::Zero => '0',
        Bit::One => '1',
    }
}

/// The digit form of a character's code is its bit form written out.
pub proof fn lemma_code_chars_are_code_bits(t: HuffNode, ch: char)
    ensures
        code_chars_of(t, ch) == code_of(t, ch).map_values(|b: Bit| bit_char(b)),
    decreases t,
{
    if t.left is None && t.right is None {
        assert(code_chars_of(t, ch) =~= code_of(t, ch).map_values(|b: Bit| bit_char(b)));
    } else {
        match (t.left, t.right) {
            (Some(l), Some(r)) => {
                lemma_code_chars_are_code_bits(*l, ch);
                lemma_code_chars_are_code_bits(*r, ch);
                assert(code_chars_of(t, ch) =~= code_of(t, ch).map_values(
                    |b: Bit| bit_char(b),
                ));
            },
            _ => {
                assert(code_chars_of(t, ch) =~= code_of(t, ch).map_values(
                    |b: Bit| bit_char(b),
                ));
            },
        }
    }
}

/// The digit form of a text's encoding is its bit form written out.
pub proof fn lemma_encoded_chars_are_encoded_bits(s: Seq<char>, t: HuffNode)
    ensures
        encoded_chars(s, t) == encoded_bits(s, t).map_values(|b: Bit| bit_char(b)),
    decreases s.len(),
{
    if s.len() == 0 {
        assert(encoded_chars(s, t) =~= encoded_bits(s, t).map_values(|b: Bit| bit_char(b)));
    } else {
        lemma_encoded_chars_are_encoded_bits(s.drop_last(), t);
        lemma_code_chars_are_code_bits(t, s.last());
        assert(encoded_chars(s, t) =~= encoded_bits(s, t).map_values(|b: Bit| bit_char(b)));
    }
}

} // verus!



