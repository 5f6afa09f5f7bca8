use vstd::prelude::*;

verus! {

use crate::afs::FNode;
use crate::afs::FNodeView;
use crate::afs::FTree;
use crate::afs::FType;
use crate::afs::tree_view;
use vstd::string::StrSliceExecFns;
use crate::afs::FTreeView;
use crate::afs::FTypeView;

/// A `u32` as four little-endian bytes.
pub open spec fn le32(n: u32) -> Seq<u8> {
    seq![
        (n & 0xff) as u8,
        ((n >> 8) & 0xff) as u8,
        ((n >> 16) & 0xff) as u8,
        ((n >> 24) & 0xff) as u8,
    ]
}

/// A `u64` as eight little-endian bytes.
pub open spec fn le64(n: u64) -> Seq<u8> {
    seq![
        (n & 0xff) as u8,
        ((n >> 8) & 0xff) as u8,
        ((n >> 16) & 0xff) as u8,
        ((n >> 24) & 0xff) as u8,
        ((n >> 32) & 0xff) as u8,
        ((n >> 40) & 0xff) as u8,
        ((n >> 48) & 0xff) as u8,
        ((n >> 56) & 0xff) as u8,
    ]
}

/// The `u32` four little-endian bytes encode.
pub open spec fn combine32(b: Seq<u8>) -> u32 {
    (b[0] as u32) | ((b[1] as u32) << 8) | ((b[2] as u32) << 16) | ((b[3] as u32) << 24)
}

/// The `u64` eight little-endian bytes encode.
pub open spec fn combine64(b: Seq<u8>) -> u64 {
    (b[0] as u64) | ((b[1] as u64) << 8) | ((b[2] as u64) << 16) | ((b[3] as u64) << 24) | (
    (b[4] as u64) << 32) | ((b[5] as u64) << 40) | ((b[6] as u64) << 48) | ((b[7] as u64) << 56)
}

/// Four little-endian bytes decode the `u32` they were made from.
pub proof fn lemma_le32_roundtrip(n: u32)
    ensures
        combine32(le32(n)) == n,
{
    let b0 = (n & 0xff) as u8;
    let b1 = ((n >> 8) & 0xff) as u8;
    let b2 = ((n >> 16) & 0xff) as u8;
    let b3 = ((n >> 24) & 0xff) as u8;
    assert((b0 as u32) | ((b1 as u32) << 8) | ((b2 as u32) << 16) | ((b3 as u32) << 24)
        == n) by (bit_vector)
        requires
            b0 == (n & 0xff) as u8,
            b1 == ((n >> 8) & 0xff) as u8,
            b2 == ((n >> 16) & 0xff) as u8,
            b3 == ((n >> 24) & 0xff) as u8,
    ;
}

/// Eight little-endian bytes decode the `u64` they were made from.
pub proof fn lemma_le64_roundtrip(n: u64)
    ensures
        combine64(le64(n)) == n,
{
    let b0 = (n & 0xff) as u8;
    let b1 = ((n >> 8) & 0xff) as u8;
    let b2 = ((n >> 16) & 0xff) as u8;
    let b3 = ((n >> 24) & 0xff) as u8;
    let b4 = ((n >> 32) & 0xff) as u8;
    let b5 = ((n >> 40) & 0xff) as u8;
    let b6 = ((n >> 48) & 0xff) as u8;
    let b7 = ((n >> 56) & 0xff) as u8;
    assert((b0 as u64) | ((b1 as u64) << 8) | ((b2 as u64) << 16) | ((b3 as u64) << 24) | (
    (b4 as u64) << 32) | ((b5 as u64) << 40) | ((b6 as u64) << 48) | ((b7 as u64) << 56)
        == n) by (bit_vector)
        requires
            b0 == (n & 0xff) as u8,
            b1 == ((n >> 8) & 0xff) as u8,
            b2 == ((n >> 16) & 0xff) as u8,
            b3 == ((n >> 24) & 0xff) as u8,
            b4 == ((n >> 32) & 0xff) as u8,
            b5 == ((n >> 40) & 0xff) as u8,
            b6 == ((n >> 48) & 0xff) as u8,
            b7 == ((n >> 56) & 0xff) as u8,
    ;
}

/// Whether `v` is a Unicode scalar value, i.e. the number of some `char`.
pub open spec fn is_scalar(v: u32) -> bool {
    v < 0xD800 || (0xE000 <= v && v <= 0x10FFFF)
}

/// One character, as the four bytes of its code point.
pub open spec fn ser_char(c: char) -> Seq<u8> {
    le32(c as u32)
}

/// The characters of `s`, one after the other.
pub open spec fn ser_chars(s: Seq<char>) -> Seq<u8>
    decreases s.len(),
{
    if s.len() == 0 {
        Seq::empty()
    } else {
        ser_char(s[0]) + ser_chars(s.drop_first())
    }
}

/// A string: its character count, then its characters.
pub open spec fn ser_str(s: Seq<char>) -> Seq<u8> {
    le64(s.len() as u64) + ser_chars(s)
}

/// Read eight bytes as a count, handing the rest back.
pub open spec fn de_u64(s: Seq<u8>) -> Option<(u64, Seq<u8>)> {
    if s.len() < 8 {
        None
    } else {
        Some((combine64(s.take(8)), s.skip(8)))
    }
}

/// Read one character from four bytes, refusing what no `char` encodes.
pub open spec fn de_char(s: Seq<u8>) -> Option<(char, Seq<u8>)> {
    if s.len() < 4 {
        None
    } else {
        let v = combine32(s.take(4));
        if is_scalar(v) {
            Some((v as char, s.skip(4)))
        } else {
            None
        }
    }
}

/// Read `k` characters.
pub open spec fn de_chars(s: Seq<u8>, k: nat) -> Option<(Seq<char>, Seq<u8>)>
    decreases k,
{
    if k == 0 {
        Some((Seq::empty(), s))
    } else {
        match de_char(s) {
            None => None,
            Some((c, r)) => match de_chars(r, (k - 1) as nat) {
                None => None,
                Some((cs, r2)) => Some((seq![c] + cs, r2)),
            },
        }
    }
}

/// Read one string: its count, then that many characters.
pub open spec fn de_str(s: Seq<u8>) -> Option<(Seq<char>, Seq<u8>)> {
    match de_u64(s) {
        None => None,
        Some((k, r)) => de_chars(r, k as nat),
    }
}

/// Serialization of strings inverts: whatever follows is handed back
/// untouched.
pub proof fn lemma_str_roundtrip(s: Seq<char>, rest: Seq<u8>)
    requires
        s.len() <= u64::MAX,
    ensures
        de_str(ser_str(s) + rest) == Some((s, rest)),
{
    let whole = ser_str(s) + rest;
    assert(whole.take(8) =~= le64(s.len() as u64));
    lemma_le64_roundtrip(s.len() as u64);
    assert(whole.skip(8) =~= ser_chars(s) + rest);
    lemma_chars_roundtrip(s, rest);
}

/// A character's code point is a scalar value and casts back to the same
/// character.
pub proof fn lemma_char_cast(c: char)
    ensures
        is_scalar(c as u32),
        (c as u32) as char == c,
{
}

/// Character serialization inverts, character by character.
pub proof fn lemma_chars_roundtrip(s: Seq<char>, rest: Seq<u8>)
    ensures
        de_chars(ser_chars(s) + rest, s.len()) == Some((s, rest)),
    decreases s.len(),
{
    if s.len() == 0 {
        assert(ser_chars(s) + rest =~= rest);
        assert(seq![] + s =~= s);
    } else {
        let c = s[0];
        let whole = ser_chars(s) + rest;
        assert(whole =~= ser_char(c) + (ser_chars(s.drop_first()) + rest));
        assert(whole.take(4) =~= le32(c as u32));
        lemma_le32_roundtrip(c as u32);
        lemma_char_cast(c);
        assert(whole.skip(4) =~= ser_chars(s.drop_first()) + rest);
        lemma_chars_roundtrip(s.drop_first(), rest);
        assert(seq![c] + s.drop_first() =~= s);
    }
}

/// An entry: its name, then a tag byte, then for a file its content
/// reference.
pub open spec fn ser_node(n: FNodeView) -> Seq<u8> {
    ser_str(n.name) + (match n.f_type {
        FTypeView::Folder => seq![0u8],
        FTypeView::File(r) => seq![1u8] + ser_str(r),
    })
}

/// A subtree: its entry, its child count, then its children in order.
pub open spec fn ser_tree(t: FTreeView) -> Seq<u8>
    decreases t,
{
    ser_node(t.node) + le64(t.children.len() as u64) + ser_forest(t.children)
}

/// Sibling subtrees, one after the other.
pub open spec fn ser_forest(cs: Seq<FTreeView>) -> Seq<u8>
    decreases cs,
{
    if cs.len() == 0 {
        Seq::empty()
    } else {
        ser_tree(cs[0]) + ser_forest(cs.drop_first())
    }
}

/// Read one entry.
pub open spec fn de_node(s: Seq<u8>) -> Option<(FNodeView, Seq<u8>)> {
    match de_str(s) {
        None => None,
        Some((name, r)) => {
            if r.len() < 1 {
                None
            } else if r[0] == 0u8 {
                Some((FNodeView { name, f_type: FTypeView::Folder }, r.skip(1)))
            } else if r[0] == 1u8 {
                match de_str(r.skip(1)) {
                    None => None,
                    Some((cref, r2)) => Some(
                        (FNodeView { name, f_type: FTypeView::File(cref) }, r2),
                    ),
                }
            } else {
                None
            }
        },
    }
}

/// Read one subtree: entry, child count, children.  The two inner length
/// checks only state what every successful read of the outer parts already
/// guarantees; they let the recursion visibly shrink its input.
pub open spec fn de_tree(s: Seq<u8>) -> Option<(FTreeView, Seq<u8>)>
    decreases s.len(), 1int, 0nat,
{
    match de_node(s) {
        None => None,
        Some((node, r1)) => match de_u64(r1) {
            None => None,
            Some((k, r2)) => {
                if r2.len() >= s.len() {
                    None
                } else {
                    match de_forest(r2, k as nat) {
                        None => None,
                        Some((cs, r3)) => Some((FTreeView { node, children: cs }, r3)),
                    }
                }
            },
        },
    }
}

/// Read `k` subtrees.
pub open spec fn de_forest(s: Seq<u8>, k: nat) -> Option<(Seq<FTreeView>, Seq<u8>)>
    decreases s.len(), 2int, k,
{
    if k == 0 {
        Some((Seq::empty(), s))
    } else {
        match de_tree(s) {
            None => None,
            Some((t, r)) => {
                if r.len() >= s.len() {
                    None
                } else {
                    match de_forest(r, (k - 1) as nat) {
                        None => None,
                        Some((cs, r2)) => Some((seq![t] + cs, r2)),
                    }
                }
            },
        }
    }
}

/// Every count in the tree fits the eight bytes it is stored in.  Trees
/// that live in memory always do; the bound only matters for the
/// mathematical statement, which speaks of arbitrary tree models.
pub open spec fn bounded(t: FTreeView) -> bool
    decreases t,
{
    &&& t.node.name.len() <= u64::MAX
    &&& (t.node.f_type matches FTypeView::File(r) ==> r.len() <= u64::MAX)
    &&& t.children.len() <= u64::MAX
    &&& (forall|i: int| 0 <= i < t.children.len() ==> bounded(#[trigger] t.children[i]))
}

/// Entry serialization inverts.
pub proof fn lemma_node_roundtrip(n: FNodeView, rest: Seq<u8>)
    requires
        n.name.len() <= u64::MAX,
        n.f_type matches FTypeView::File(r) ==> r.len() <= u64::MAX,
    ensures
        de_node(ser_node(n) + rest) == Some((n, rest)),
{
    let whole = ser_node(n) + rest;
    match n.f_type {
        FTypeView::Folder => {
            assert(whole =~= ser_str(n.name) + (seq![0u8] + rest));
            lemma_str_roundtrip(n.name, seq![0u8] + rest);
            let r = seq![0u8] + rest;
            assert(r[0] == 0u8);
            assert(r.skip(1) =~= rest);
        },
        FTypeView::File(cref) => {
            assert(whole =~= ser_str(n.name) + (seq![1u8] + (ser_str(cref) + rest)));
            lemma_str_roundtrip(n.name, seq![1u8] + (ser_str(cref) + rest));
            let r = seq![1u8] + (ser_str(cref) + rest);
            assert(r[0] == 1u8);
            assert(r.skip(1) =~= ser_str(cref) + rest);
            lemma_str_roundtrip(cref, rest);
        },
    }
}

/// Round-trip: a serialized subtree deserializes to a structurally equal
/// subtree, whatever follows it in the byte stream.
pub proof fn lemma_tree_roundtrip(t: FTreeView, rest: Seq<u8>)
    requires
        bounded(t),
    ensures
        de_tree(ser_tree(t) + rest) == Some((t, rest)),
    decreases t, 1int, 0nat,
{
    let whole = ser_tree(t) + rest;
    let tail1 = le64(t.children.len() as u64) + (ser_forest(t.children) + rest);
    assert(whole =~= ser_node(t.node) + tail1);
    lemma_node_roundtrip(t.node, tail1);
    assert(tail1.take(8) =~= le64(t.children.len() as u64));
    lemma_le64_roundtrip(t.children.len() as u64);
    assert(tail1.skip(8) =~= ser_forest(t.children) + rest);
    lemma_forest_roundtrip(t.children, rest);
}

/// Round-trip for sibling subtrees.
pub proof fn lemma_forest_roundtrip(cs: Seq<FTreeView>, rest: Seq<u8>)
    requires
        forall|i: int| 0 <= i < cs.len() ==> bounded(#[trigger] cs[i]),
    ensures
        de_forest(ser_forest(cs) + rest, cs.len()) == Some((cs, rest)),
    decreases cs, 2int, cs.len(),
{
    if cs.len() == 0 {
        assert(ser_forest(cs) + rest =~= rest);
    } else {
        let whole = ser_forest(cs) + rest;
        assert(whole =~= ser_tree(cs[0]) + (ser_forest(cs.drop_first()) + rest));
        assert(bounded(cs[0]));
        lemma_tree_roundtrip(cs[0], ser_forest(cs.drop_first()) + rest);
        assert forall|i: int|
            0 <= i < cs.drop_first().len() implies bounded(#[trigger] cs.drop_first()[i]) by {
            assert(cs.drop_first()[i] == cs[i + 1]);
            assert(bounded(cs[i + 1]));
        }
        lemma_forest_roundtrip(cs.drop_first(), rest);
        assert(seq![cs[0]] + cs.drop_first() =~= cs);
    }
}


/// Character serialization distributes over concatenation.
pub proof fn lemma_ser_chars_concat(a: Seq<char>, b: Seq<char>)
    ensures
        ser_chars(a + b) == ser_chars(a) + ser_chars(b),
    decreases a.len(),
{
    if a.len() == 0 {
        assert(a + b =~= b);
        assert(ser_chars(a) + ser_chars(b) =~= ser_chars(b));
    } else {
        assert((a + b)[0] == a[0]);
        assert((a + b).drop_first() =~= a.drop_first() + b);
        lemma_ser_chars_concat(a.drop_first(), b);
        assert(ser_char(a[0]) + (ser_chars(a.drop_first()) + ser_chars(b)) =~= (ser_char(a[0])
            + ser_chars(a.drop_first())) + ser_chars(b));
    }
}

/// Forest serialization distributes over concatenation.
pub proof fn lemma_ser_forest_concat(a: Seq<FTreeView>, b: Seq<FTreeView>)
    ensures
        ser_forest(a + b) == ser_forest(a) + ser_forest(b),
    decreases a.len(),
{
    if a.len() == 0 {
        assert(a + b =~= b);
        assert(ser_forest(a) + ser_forest(b) =~= ser_forest(b));
    } else {
        assert((a + b)[0] == a[0]);
        assert((a + b).drop_first() =~= a.drop_first() + b);
        lemma_ser_forest_concat(a.drop_first(), b);
        assert(ser_tree(a[0]) + (ser_forest(a.drop_first()) + ser_forest(b)) =~= (ser_tree(a[0])
            + ser_forest(a.drop_first())) + ser_forest(b));
    }
}

/// Append the four little-endian bytes of `n`.
fn write_u32(out: &mut Vec<u8>, n: u32)
    ensures
        final(out)@ == old(out)@ + le32(n),
{
    out.push((n & 0xff) as u8);
    out.push(((n >> 8) & 0xff) as u8);
    out.push(((n >> 16) & 0xff) as u8);
    out.push(((n >> 24) & 0xff) as u8);
    proof {
        assert(out@ =~= old(out)@ + le32(n));
    }
}

/// Append the eight little-endian bytes of `n`.
fn write_u64(out: &mut Vec<u8>, n: u64)
    ensures
        final(out)@ == old(out)@ + le64(n),
{
    out.push((n & 0xff) as u8);
    out.push(((n >> 8) & 0xff) as u8);
    out.push(((n >> 16) & 0xff) as u8);
    out.push(((n >> 24) & 0xff) as u8);
    out.push(((n >> 32) & 0xff) as u8);
    out.push(((n >> 40) & 0xff) as u8);
    out.push(((n >> 48) & 0xff) as u8);
    out.push(((n >> 56) & 0xff) as u8);
    proof {
        assert(out@ =~= old(out)@ + le64(n));
    }
}

/// Append the encoding of one string.
fn write_str(out: &mut Vec<u8>, s: &String)
    ensures
        final(out)@ == old(out)@ + ser_str(s@),
{
    let n = s.as_str().unicode_len();
    write_u64(out, n as u64);
    let ghost base = out@;
    proof {
        assert(ser_chars(s@.take(0)) =~= Seq::<u8>::empty());
        assert(out@ =~= base + ser_chars(s@.take(0)));
    }
    let mut i: usize = 0;
    while i < n
        invariant
            i <= n,
            n == s@.len(),
            out@ == base + ser_chars(s@.take(i as int)),
        decreases n - i,
    {
        let c = s.as_str().get_char(i);
        write_u32(out, c as u32);
        proof {
            assert(s@.take(i as int + 1) =~= s@.take(i as int) + seq![s@[i as int]]);
            lemma_ser_chars_concat(s@.take(i as int), seq![s@[i as int]]);
            assert(seq![s@[i as int]].drop_first() =~= Seq::<char>::empty());
            assert(ser_chars(Seq::<char>::empty()) =~= Seq::<u8>::empty());
            assert(ser_chars(seq![s@[i as int]]) =~= ser_char(s@[i as int]));
            assert(out@ =~= base + ser_chars(s@.take(i as int + 1)));
        }
        i += 1;
    }
    proof {
        assert(s@.take(n as int) =~= s@);
        assert(out@ =~= old(out)@ + ser_str(s@));
    }
}

/// Append the encoding of one subtree.
fn write_tree(out: &mut Vec<u8>, t: &FTree)
    ensures
        final(out)@ == old(out)@ + ser_tree(t@),
    decreases *t,
{
    write_str(out, &t.inner.name);
    match &t.inner.f_type {
        FType::Folder => {
            out.push(0u8);
        },
        FType::File(r) => {
            out.push(1u8);
            write_str(out, r);
        },
    }
    proof {
        assert(out@ =~= old(out)@ + ser_node(t@.node));
    }
    let ghost nbase = out@;
    write_u64(out, t.children.len() as u64);
    let ghost base = out@;
    proof {
        assert(ser_forest(t@.children.take(0)) =~= Seq::<u8>::empty());
        assert(out@ =~= base + ser_forest(t@.children.take(0)));
    }
    let mut i: usize = 0;
    while i < t.children.len()
        invariant
            i <= t.children@.len(),
            base == nbase + le64(tree_view(*t).children.len() as u64),
            out@ == base + ser_forest(tree_view(*t).children.take(i as int)),
        decreases t.children@.len() - i,
    {
        let ghost cs = tree_view(*t).children;
        write_tree(out, &t.children[i]);
        proof {
            assert(tree_view(*t).children[i as int] == tree_view(t.children@[i as int]));
            assert(cs.take(i as int + 1) =~= cs.take(i as int) + seq![cs[i as int]]);
            lemma_ser_forest_concat(cs.take(i as int), seq![cs[i as int]]);
            assert(seq![cs[i as int]].drop_first() =~= Seq::<FTreeView>::empty());
            assert(ser_forest(Seq::<FTreeView>::empty()) =~= Seq::<u8>::empty());
            assert(ser_forest(seq![cs[i as int]]) =~= ser_tree(cs[i as int]));
            assert(out@ =~= base + ser_forest(cs.take(i as int + 1)));
        }
        i += 1;
    }
    proof {
        let cs = tree_view(*t).children;
        assert(cs.take(cs.len() as int) =~= cs);
        assert(out@ =~= old(out)@ + ser_tree(t@));
    }
}

/// Serialize a tree to the byte form the snapshot round-trips through.
pub fn serialize(t: &FTree) -> (r: Vec<u8>)
    ensures
        r@ == ser_tree(t@),
{
    let mut out: Vec<u8> = Vec::new();
    write_tree(&mut out, t);
    proof {
        assert(Seq::<u8>::empty() + ser_tree(t@) =~= ser_tree(t@));
    }
    out
}


/// Relies on `char::from_u32`: `Some` exactly for Unicode scalar values,
/// giving the character with that code point.
#[verifier::external_body]
fn char_from_u32(v: u32) -> (r: Option<char>)
    ensures
        match r {
            Some(c) => c as u32 == v,
            None => !is_scalar(v),
        },
{
    char::from_u32(v)
}

/// Relies on `String::push`: appends one character at the end.
#[verifier::external_body]
fn push_char(s: &mut String, c: char)
    ensures
        final(s)@ == old(s)@.push(c),
{
    s.push(c);
}

/// Read a count at `pos`.
fn read_u64(bytes: &[u8], pos: usize) -> (r: Option<(u64, usize)>)
    requires
        pos <= bytes@.len(),
    ensures
        match r {
            Some(v) => de_u64(bytes@.skip(pos as int)) == Some((v.0, bytes@.skip(v.1 as int)))
                && v.1 == pos + 8 && v.1 <= bytes@.len(),
            None => de_u64(bytes@.skip(pos as int)) is None,
        },
{
    let ghost tail = bytes@.skip(pos as int);
    if bytes.len() - pos < 8 {
        return None;
    }
    let n = (bytes[pos] as u64) | ((bytes[pos + 1] as u64) << 8) | ((bytes[pos + 2] as u64) << 16)
        | ((bytes[pos + 3] as u64) << 24) | ((bytes[pos + 4] as u64) << 32) | ((bytes[pos
        + 5] as u64) << 40) | ((bytes[pos + 6] as u64) << 48) | ((bytes[pos + 7] as u64) << 56);
    proof {
        let w = tail.take(8);
        assert forall|i: int| 0 <= i < 8 implies w[i] == bytes@[pos + i] by {}
        assert(n == combine64(w));
        assert(bytes@.skip(pos as int + 8) =~= tail.skip(8));
    }
    Some((n, pos + 8))
}

/// Read one character at `pos`.
fn read_char(bytes: &[u8], pos: usize) -> (r: Option<(char, usize)>)
    requires
        pos <= bytes@.len(),
    ensures
        match r {
            Some(v) => de_char(bytes@.skip(pos as int)) == Some((v.0, bytes@.skip(v.1 as int)))
                && v.1 == pos + 4 && v.1 <= bytes@.len(),
            None => de_char(bytes@.skip(pos as int)) is None,
        },
{
    let ghost tail = bytes@.skip(pos as int);
    if bytes.len() - pos < 4 {
        return None;
    }
    let v = (bytes[pos] as u32) | ((bytes[pos + 1] as u32) << 8) | ((bytes[pos + 2] as u32) << 16)
        | ((bytes[pos + 3] as u32) << 24);
    proof {
        let w = tail.take(4);
        assert forall|i: int| 0 <= i < 4 implies w[i] == bytes@[pos + i] by {}
        assert(v == combine32(w));
        assert(bytes@.skip(pos as int + 4) =~= tail.skip(4));
    }
    match char_from_u32(v) {
        Some(c) => {
            proof {
                lemma_char_cast(c);
            }
            Some((c, pos + 4))
        },
        None => None,
    }
}

/// Read one string at `pos`.
fn read_str(bytes: &[u8], pos: usize) -> (r: Option<(String, usize)>)
    requires
        pos <= bytes@.len(),
    ensures
        match r {
            Some(v) => de_str(bytes@.skip(pos as int)) == Some((v.0@, bytes@.skip(v.1 as int)))
                && pos + 8 <= v.1 <= bytes@.len(),
            None => de_str(bytes@.skip(pos as int)) is None,
        },
{
    let ghost tail = bytes@.skip(pos as int);
    let (k, p1) = match read_u64(bytes, pos) {
        Some(v) => v,
        None => {
            return None;
        },
    };
    let mut s = String::new();
    let mut cur: usize = p1;
    let mut c: u64 = 0;
    while c < k
        invariant
            pos + 8 <= p1 <= cur <= bytes@.len(),
            c <= k,
            de_u64(bytes@.skip(pos as int)) == Some((k, bytes@.skip(p1 as int))),
            match de_chars(bytes@.skip(cur as int), (k - c) as nat) {
                Some(v) => de_chars(bytes@.skip(p1 as int), k as nat) == Some(
                    (s@ + v.0, v.1),
                ),
                None => de_chars(bytes@.skip(p1 as int), k as nat) is None,
            },
        decreases k - c,
    {
        let ghost s0 = s@;
        match read_char(bytes, cur) {
            Some((ch, p2)) => {
                push_char(&mut s, ch);
                proof {
                    assert forall|v0: Seq<char>, v1: Seq<u8>|
                        de_chars(bytes@.skip(p2 as int), (k - c - 1) as nat) == Some(
                            (v0, v1),
                        ) implies s@ + v0 == s0 + (seq![ch] + v0) by {
                        assert(s@ + v0 =~= s0 + (seq![ch] + v0));
                    }
                }
                cur = p2;
            },
            None => {
                return None;
            },
        }
        c = c + 1;
    }
    proof {
        assert(de_chars(bytes@.skip(cur as int), 0) == Some(
            (Seq::<char>::empty(), bytes@.skip(cur as int)),
        ));
        assert(s@ + Seq::<char>::empty() =~= s@);
    }
    Some((s, cur))
}

/// Read one entry at `pos`.
fn read_node(bytes: &[u8], pos: usize) -> (r: Option<(FNode, usize)>)
    requires
        pos <= bytes@.len(),
    ensures
        match r {
            Some(v) => de_node(bytes@.skip(pos as int)) == Some((v.0@, bytes@.skip(v.1 as int)))
                && pos < v.1 <= bytes@.len(),
            None => de_node(bytes@.skip(pos as int)) is None,
        },
{
    let (name, p1) = match read_str(bytes, pos) {
        Some(v) => v,
        None => {
            return None;
        },
    };
    proof {
        if p1 < bytes@.len() {
            assert(bytes@.skip(p1 as int)[0] == bytes@[p1 as int]);
            assert(bytes@.skip(p1 as int).skip(1) =~= bytes@.skip(p1 as int + 1));
        }
    }
    if p1 >= bytes.len() {
        return None;
    }
    let tag = bytes[p1];
    if tag == 0 {
        Some((FNode { name, f_type: FType::Folder }, p1 + 1))
    } else if tag == 1 {
        let (cref, p2) = match read_str(bytes, p1 + 1) {
            Some(v) => v,
            None => {
                return None;
            },
        };
        Some((FNode { name, f_type: FType::File(cref) }, p2))
    } else {
        None
    }
}

/// Read one subtree at `pos`.
fn read_tree(bytes: &[u8], pos: usize) -> (r: Option<(FTree, usize)>)
    requires
        pos <= bytes@.len(),
    ensures
        match r {
            Some(v) => de_tree(bytes@.skip(pos as int)) == Some(
                (v.0@, bytes@.skip(v.1 as int)),
            ) && pos < v.1 <= bytes@.len(),
            None => de_tree(bytes@.skip(pos as int)) is None,
        },
    decreases bytes@.len() - pos,
{
    let (node, p1) = match read_node(bytes, pos) {
        Some(v) => v,
        None => {
            return None;
        },
    };
    let (k, p2) = match read_u64(bytes, p1) {
        Some(v) => v,
        None => {
            return None;
        },
    };
    let mut children: Vec<FTree> = Vec::new();
    let mut cur: usize = p2;
    let mut c: u64 = 0;
    proof {
        assert(children.deep_view() =~= Seq::<FTreeView>::empty());
        assert(Seq::<FTreeView>::empty() + Seq::<FTreeView>::empty() =~= Seq::<
            FTreeView,
        >::empty());
    }
    while c < k
        invariant
            pos < p2 <= cur <= bytes@.len(),
            c <= k,
            de_node(bytes@.skip(pos as int)) == Some((node@, bytes@.skip(p1 as int))),
            de_u64(bytes@.skip(p1 as int)) == Some((k, bytes@.skip(p2 as int))),
            p1 <= bytes@.len(),
            c > 0 ==> p2 < cur,
            match de_forest(bytes@.skip(cur as int), (k - c) as nat) {
                Some(v) => de_forest(bytes@.skip(p2 as int), k as nat) == Some(
                    (children.deep_view() + v.0, v.1),
                ),
                None => de_forest(bytes@.skip(p2 as int), k as nat) is None,
            },
        decreases k - c,
    {
        let ghost kids0 = children.deep_view();
        match read_tree(bytes, cur) {
            Some((child, p3)) => {
                proof {
                    assert forall|v0: Seq<FTreeView>, v1: Seq<u8>|
                        de_forest(bytes@.skip(p3 as int), (k - c - 1) as nat) == Some(
                            (v0, v1),
                        ) implies kids0.push(tree_view(child)) + v0 == kids0 + (seq![
                        tree_view(child)] + v0) by {
                        assert(kids0.push(tree_view(child)) + v0 =~= kids0 + (seq![
                        tree_view(child)] + v0));
                    }
                }
                children.push(child);
                proof {
                    assert(children.deep_view() =~= kids0.push(tree_view(
                        children@[children@.len() - 1],
                    )));
                }
                cur = p3;
            },
            None => {
                return None;
            },
        }
        c = c + 1;
    }
    let t = FTree { inner: node, children };
    proof {
        assert(de_forest(bytes@.skip(cur as int), 0) == Some(
            (Seq::<FTreeView>::empty(), bytes@.skip(cur as int)),
        ));
        assert(t.children.deep_view() + Seq::<FTreeView>::empty() =~= t.children.deep_view());
        assert(tree_view(t).children =~= t.children.deep_view());
        assert(tree_view(t).node == node@);
    }
    Some((t, cur))
}

/// What a whole byte string decodes to: one subtree, with nothing left
/// over.
pub open spec fn decode(s: Seq<u8>) -> Option<FTreeView> {
    match de_tree(s) {
        None => None,
        Some((t, r)) => {
            if r.len() == 0 {
                Some(t)
            } else {
                None
            }
        },
    }
}

/// Deserialize what [`serialize`] produced; `None` for any byte string
/// that no tree serializes to.
pub fn deserialize(bytes: &[u8]) -> (r: Option<FTree>)
    ensures
        match r {
            Some(t) => decode(bytes@) == Some(t@),
            None => decode(bytes@) is None,
        },
{
    proof {
        assert(bytes@.skip(0) =~= bytes@);
    }
    match read_tree(bytes, 0) {
        Some((t, p)) => {
            proof {
                assert(bytes@.skip(p as int).len() == bytes@.len() - p);
            }
            if p == bytes.len() {
                Some(t)
            } else {
                None
            }
        },
        None => None,
    }
}

/// Round-trip: a serialized tree deserializes, with nothing left over, to
/// a structurally equal tree.
pub proof fn lemma_snapshot_roundtrip(t: FTreeView)
    requires
        bounded(t),
    ensures
        decode(ser_tree(t)) == Some(t),
{
    lemma_tree_roundtrip(t, Seq::empty());
    assert(ser_tree(t) + Seq::<u8>::empty() =~= ser_tree(t));
}

} // verus!
