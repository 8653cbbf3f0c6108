//! A stable binary encoding for tag hierarchies, so that a forest can be
//! kept in the persistent store and read back exactly.  Decoding is total:
//! bytes that no encoding produced decode to nothing, never to an error.
//!
//! Layout: numbers are base-128 varints, low group first, high bit marking
//! a continuation; a string is the varint length of its UTF-8 bytes
//! followed by those bytes; a node is its label, one expansion-flag byte,
//! its file paths (counted), and its children (counted, recursively); a
//! forest is its node count followed by its nodes.

use vstd::prelude::*;
use vstd::utf8::{encode_utf8, decode_utf8, valid_utf8, encode_utf8_valid_utf8,
    encode_utf8_decode_utf8};
use crate::media_metadata::{TagTreeNode, TagNodeV, tag_nodes_view, lemma_tag_nodes_view,
    tag_node_view};
use crate::text::strs_view;

verus! {

/// The varint encoding of a number: seven bits per byte, low group first,
/// the high bit set on every byte but the last.
pub open spec fn ser_nat(n: nat) -> Seq<u8>
    decreases n,
{
    if n < 128 {
        seq![n as u8]
    } else {
        seq![(128 + (n % 128)) as u8] + ser_nat(n / 128)
    }
}

/// Reads one varint: the value and the count of bytes consumed.  Values
/// beyond the 64-bit range are refused, as is a truncated chain.
pub open spec fn par_nat(b: Seq<u8>) -> Option<(nat, int)>
    decreases b.len(),
{
    if b.len() == 0 {
        None
    } else if b[0] < 128 {
        Some((b[0] as nat, 1))
    } else {
        match par_nat(b.drop_first()) {
            Some((m, used)) => {
                let v = (b[0] - 128) as nat + 128 * m;
                if v <= u64::MAX as nat {
                    Some((v, used + 1))
                } else {
                    None
                }
            },
            None => None,
        }
    }
}

/// Reading a written varint gives the number back and consumes exactly its
/// encoding, whatever follows it.
pub proof fn lemma_par_ser_nat(n: nat, rest: Seq<u8>)
    requires
        n <= u64::MAX as nat,
    ensures
        par_nat(ser_nat(n) + rest) == Some((n, ser_nat(n).len() as int)),
        ser_nat(n).len() >= 1,
    decreases n,
{
    let b = ser_nat(n) + rest;
    if n < 128 {
        assert(b[0] == n as u8);
    } else {
        lemma_par_ser_nat(n / 128, rest);
        assert(b[0] == (128 + (n % 128)) as u8);
        assert(b.drop_first() =~= ser_nat(n / 128) + rest);
        assert((b[0] - 128) as nat == n % 128);
        assert(n % 128 + 128 * (n / 128) == n);
    }
}

/// Appends the varint encoding of `n`.
fn write_nat(out: &mut Vec<u8>, n: u64)
    ensures
        final(out)@ == old(out)@ + ser_nat(n as nat),
    decreases n,
{
    let ghost pre = out@;
    if n < 128 {
        out.push(n as u8);
        proof {
            assert(out@ =~= pre + ser_nat(n as nat));
        }
    } else {
        out.push(128 + (n % 128) as u8);
        write_nat(out, n / 128);
        proof {
            assert((128 + (n % 128) as u8) == (128 + (n as nat) % 128) as u8);
            assert(out@ =~= pre + ser_nat(n as nat));
        }
    }
}

/// Reads one varint at `pos`, as [`par_nat`] describes.
fn read_nat(b: &Vec<u8>, pos: usize) -> (r: Option<(u64, usize)>)
    requires
        pos <= b@.len(),
    ensures
        match r {
            Some(p) => pos < p.1 <= b@.len() && par_nat(b@.skip(pos as int)) == Some(
                (p.0 as nat, p.1 - pos),
            ),
            None => par_nat(b@.skip(pos as int)) is None,
        },
    decreases b@.len() - pos,
{
    let ghost tail = b@.skip(pos as int);
    if pos >= b.len() {
        return None;
    }
    let byte = b[pos];
    proof {
        assert(tail[0] == b@[pos as int]);
    }
    if byte < 128 {
        Some((byte as u64, pos + 1))
    } else {
        proof {
            assert(tail.drop_first() =~= b@.skip(pos as int + 1));
        }
        match read_nat(b, pos + 1) {
            Some((m, np)) => {
                let low = (byte - 128) as u64;
                if m <= (u64::MAX - low) / 128 {
                    proof {
                        assert(128 * m <= 128 * ((u64::MAX - low) / 128)) by (nonlinear_arith)
                            requires
                                m <= (u64::MAX - low) / 128,
                        ;
                        assert(128 * ((u64::MAX - low) / 128) <= u64::MAX - low);
                    }
                    let v = low + 128 * m;
                    Some((v, np))
                } else {
                    proof {
                        assert((low as nat) + 128 * (m as nat) > u64::MAX as nat)
                            by (nonlinear_arith)
                            requires
                                m > (u64::MAX - low) / 128,
                                low < 128,
                        ;
                    }
                    None
                }
            },
            None => None,
        }
    }
}

/// Whether a string is encodable: its UTF-8 form fits the length prefix.
/// Every string that exists in memory is.
pub open spec fn str_encodable(s: Seq<char>) -> bool {
    encode_utf8(s).len() <= u64::MAX as nat
}

/// The encoding of one string: the varint length of its UTF-8 bytes, then
/// those bytes.
pub open spec fn ser_str(s: Seq<char>) -> Seq<u8> {
    ser_nat(encode_utf8(s).len() as nat) + encode_utf8(s)
}

/// Reads one string: a length, that many bytes, decoded as UTF-8.  Bytes
/// that are not valid UTF-8 are refused.
pub open spec fn par_str(b: Seq<u8>) -> Option<(Seq<char>, int)> {
    match par_nat(b) {
        Some((len, used)) => {
            if used + len <= b.len() {
                let chunk = b.subrange(used, used + len);
                if valid_utf8(chunk) {
                    Some((decode_utf8(chunk), used + len))
                } else {
                    None
                }
            } else {
                None
            }
        },
        None => None,
    }
}

/// Reading a written string gives it back, whatever follows it.
pub proof fn lemma_par_ser_str(s: Seq<char>, rest: Seq<u8>)
    requires
        str_encodable(s),
    ensures
        par_str(ser_str(s) + rest) == Some((s, ser_str(s).len() as int)),
        ser_str(s).len() >= 1,
{
    let bytes = encode_utf8(s);
    let b = ser_str(s) + rest;
    lemma_par_ser_nat(bytes.len() as nat, bytes + rest);
    assert(b =~= ser_nat(bytes.len() as nat) + (bytes + rest));
    let used = ser_nat(bytes.len() as nat).len() as int;
    assert(b.subrange(used, used + bytes.len()) =~= bytes);
    encode_utf8_valid_utf8(s);
    encode_utf8_decode_utf8(s);
}

/// Relies on String::from_utf8: it builds the string whose UTF-8 bytes are
/// exactly the given ones, and refuses bytes that are not valid UTF-8.
#[verifier::external_body]
fn string_from_utf8(v: Vec<u8>) -> (r: Option<String>)
    ensures
        match r {
            Some(s) => v@ == encode_utf8(s@),
            None => !valid_utf8(v@),
        },
{
    match String::from_utf8(v) {
        Ok(s) => Some(s),
        Err(_) => None,
    }
}

/// Appends the encoding of one string.
fn write_str(out: &mut Vec<u8>, s: &String)
    ensures
        final(out)@ == old(out)@ + ser_str(s@),
        str_encodable(s@),
{
    let ghost pre = out@;
    let bytes = s.as_str().as_bytes_vec();
    write_nat(out, bytes.len() as u64);
    let ghost mid = out@;
    let n = bytes.len();
    let mut i: usize = 0;
    while i < n
        invariant
            0 <= i <= n,
            n == bytes@.len(),
            out@ == mid + bytes@.take(i as int),
        decreases n - i,
    {
        out.push(bytes[i]);
        proof {
            assert(out@ =~= mid + bytes@.take(i as int + 1));
        }
        i = i + 1;
    }
    proof {
        assert(bytes@.take(n as int) =~= bytes@);
        assert(out@ =~= pre + ser_str(s@));
    }
}

/// Reads one string at `pos`, as [`par_str`] describes.
fn read_str(b: &Vec<u8>, pos: usize) -> (r: Option<(String, usize)>)
    requires
        pos <= b@.len(),
    ensures
        match r {
            Some(p) => pos < p.1 <= b@.len() && par_str(b@.skip(pos as int)) == Some(
                (p.0@, p.1 - pos),
            ),
            None => par_str(b@.skip(pos as int)) is None,
        },
{
    let ghost tail = b@.skip(pos as int);
    match read_nat(b, pos) {
        Some((len, p1)) => {
            if len > (b.len() - p1) as u64 {
                proof {
                    assert(par_str(tail) is None);
                }
                return None;
            }
            let len_u: usize = len as usize;
            let mut chunk: Vec<u8> = Vec::new();
            let mut i: usize = 0;
            while i < len_u
                invariant
                    0 <= i <= len_u,
                    p1 + len_u <= b@.len(),
                    b@.len() <= usize::MAX,
                    chunk@ == b@.subrange(p1 as int, p1 as int + i as int),
                decreases len_u - i,
            {
                chunk.push(b[p1 + i]);
                proof {
                    assert(chunk@ =~= b@.subrange(p1 as int, p1 as int + i as int + 1));
                }
                i = i + 1;
            }
            proof {
                assert(tail.subrange(p1 - pos, p1 - pos + len as int) =~= b@.subrange(
                    p1 as int,
                    p1 as int + len as int,
                ));
            }
            match string_from_utf8(chunk) {
                Some(s) => {
                    proof {
                        encode_utf8_valid_utf8(s@);
                        encode_utf8_decode_utf8(s@);
                    }
                    Some((s, p1 + len_u))
                },
                None => None,
            }
        },
        None => None,
    }
}

/// Encodability of a string list: every member is encodable.  The list
/// length bound is checked where the list's count is written.
pub open spec fn strs_encodable(ps: Seq<Seq<char>>) -> bool
    decreases ps.len(),
{
    if ps.len() == 0 {
        true
    } else {
        str_encodable(ps[0]) && strs_encodable(ps.drop_first())
    }
}

/// The encodings of the strings of a list, one after the other.
pub open spec fn ser_str_list(ps: Seq<Seq<char>>) -> Seq<u8>
    decreases ps.len(),
{
    if ps.len() == 0 {
        Seq::empty()
    } else {
        ser_str(ps[0]) + ser_str_list(ps.drop_first())
    }
}

/// Reads `n` strings in a row.
pub open spec fn par_strs(b: Seq<u8>, n: nat) -> Option<(Seq<Seq<char>>, int)>
    decreases b.len(), n,
{
    if n == 0 {
        Some((Seq::empty(), 0))
    } else {
        match par_str(b) {
            Some((s0, u0)) => {
                if 1 <= u0 <= b.len() {
                    match par_strs(b.skip(u0), (n - 1) as nat) {
                        Some((ss, u1)) => Some((seq![s0] + ss, u0 + u1)),
                        None => None,
                    }
                } else {
                    None
                }
            },
            None => None,
        }
    }
}

proof fn lemma_par_ser_strs(ps: Seq<Seq<char>>, rest: Seq<u8>)
    requires
        strs_encodable(ps),
    ensures
        par_strs(ser_str_list(ps) + rest, ps.len()) == Some(
            (ps, ser_str_list(ps).len() as int),
        ),
    decreases ps.len(),
{
    if ps.len() == 0 {
        assert(ser_str_list(ps) + rest =~= rest);
        assert(ps =~= Seq::<Seq<char>>::empty());
    } else {
        let b = ser_str_list(ps) + rest;
        let tail = ser_str_list(ps.drop_first()) + rest;
        lemma_par_ser_str(ps[0], tail);
        assert(b =~= ser_str(ps[0]) + tail);
        let u0 = ser_str(ps[0]).len() as int;
        assert(b.skip(u0) =~= tail);
        lemma_par_ser_strs(ps.drop_first(), rest);
        assert(seq![ps[0]] + ps.drop_first() =~= ps);
    }
}

/// Encodability of one node: its label and paths are encodable and its
/// counts fit the length prefixes.  Every node that exists in memory is
/// encodable.
pub open spec fn node_encodable(v: TagNodeV) -> bool
    decreases v, 1nat,
{
    &&& str_encodable(v.label)
    &&& v.file_paths.len() <= u64::MAX as nat
    &&& strs_encodable(v.file_paths)
    &&& v.children.len() <= u64::MAX as nat
    &&& nodes_encodable(v.children)
}

pub open spec fn nodes_encodable(vs: Seq<TagNodeV>) -> bool
    decreases vs, 0nat,
{
    if vs.len() == 0 {
        true
    } else {
        node_encodable(vs[0]) && nodes_encodable(vs.drop_first())
    }
}

/// Encodability of a forest.
pub open spec fn forest_encodable(f: Seq<TagNodeV>) -> bool {
    f.len() <= u64::MAX as nat && nodes_encodable(f)
}

/// The encoding of one node: label, expansion flag, file paths behind
/// their count, children behind their count.
pub open spec fn ser_node(v: TagNodeV) -> Seq<u8>
    decreases v, 1nat,
{
    ser_str(v.label) + seq![
        if v.is_expanded {
            1u8
        } else {
            0u8
        },
    ] + ser_nat(v.file_paths.len()) + ser_str_list(v.file_paths) + ser_nat(v.children.len())
        + ser_nodes(v.children)
}

pub open spec fn ser_nodes(vs: Seq<TagNodeV>) -> Seq<u8>
    decreases vs, 0nat,
{
    if vs.len() == 0 {
        Seq::empty()
    } else {
        ser_node(vs[0]) + ser_nodes(vs.drop_first())
    }
}

/// The encoding of a forest: its node count, then its nodes.
pub open spec fn spec_encode_forest(f: Seq<TagNodeV>) -> Seq<u8> {
    ser_nat(f.len()) + ser_nodes(f)
}

/// Reads one node.  Every malformed shape — a truncated field, a flag byte
/// other than zero or one, an impossible offset — yields `None`.
pub open spec fn par_node(b: Seq<u8>) -> Option<(TagNodeV, int)>
    decreases b.len(), 0nat,
{
    match par_str(b) {
        Some((label, o1)) => {
            if 1 <= o1 < b.len() {
                let flag = b[o1];
                if flag == 0 || flag == 1 {
                    match par_nat(b.skip(o1 + 1)) {
                        Some((pcount, d2)) => {
                            let o2 = o1 + 1 + d2;
                            if 1 <= d2 && o2 <= b.len() {
                                match par_strs(b.skip(o2), pcount) {
                                    Some((paths, d3)) => {
                                        let o3 = o2 + d3;
                                        if 0 <= d3 && o3 <= b.len() {
                                            match par_nat(b.skip(o3)) {
                                                Some((ccount, d4)) => {
                                                    let o4 = o3 + d4;
                                                    if 1 <= d4 && o4 <= b.len() {
                                                        match par_nodes(b.skip(o4), ccount) {
                                                            Some((children, d5)) => Some(
                                                                (
                                                                    TagNodeV {
                                                                        label,
                                                                        children,
                                                                        file_paths: paths,
                                                                        is_expanded: flag == 1,
                                                                    },
                                                                    o4 + d5,
                                                                ),
                                                            ),
                                                            None => None,
                                                        }
                                                    } else {
                                                        None
                                                    }
                                                },
                                                None => None,
                                            }
                                        } else {
                                            None
                                        }
                                    },
                                    None => None,
                                }
                            } else {
                                None
                            }
                        },
                        None => None,
                    }
                } else {
                    None
                }
            } else {
                None
            }
        },
        None => None,
    }
}

/// Reads `n` nodes in a row.
pub open spec fn par_nodes(b: Seq<u8>, n: nat) -> Option<(Seq<TagNodeV>, int)>
    decreases b.len(), 1nat, n,
{
    if n == 0 {
        Some((Seq::empty(), 0))
    } else {
        match par_node(b) {
            Some((v0, u0)) => {
                if 1 <= u0 <= b.len() {
                    match par_nodes(b.skip(u0), (n - 1) as nat) {
                        Some((vs, u1)) => Some((seq![v0] + vs, u0 + u1)),
                        None => None,
                    }
                } else {
                    None
                }
            },
            None => None,
        }
    }
}

/// Decodes a whole forest: the node count, the nodes, and nothing left
/// over.  Bytes that no encoding produced decode to `None`.
pub open spec fn spec_decode_forest(b: Seq<u8>) -> Option<Seq<TagNodeV>> {
    match par_nat(b) {
        Some((count, u)) => {
            if 1 <= u <= b.len() {
                match par_nodes(b.skip(u), count) {
                    Some((nodes, u2)) => {
                        if u + u2 == b.len() {
                            Some(nodes)
                        } else {
                            None
                        }
                    },
                    None => None,
                }
            } else {
                None
            }
        },
        None => None,
    }
}

#[verifier::rlimit(100)]
proof fn lemma_par_ser_node(v: TagNodeV, rest: Seq<u8>)
    requires
        node_encodable(v),
    ensures
        par_node(ser_node(v) + rest) == Some((v, ser_node(v).len() as int)),
        ser_node(v).len() >= 1,
    decreases v, 0nat,
{
    let flag_byte: u8 = if v.is_expanded {
        1u8
    } else {
        0u8
    };
    let s1 = ser_str(v.label);
    let s2 = ser_nat(v.file_paths.len());
    let s3 = ser_str_list(v.file_paths);
    let s4 = ser_nat(v.children.len());
    let s5 = ser_nodes(v.children);
    let b = ser_node(v) + rest;
    let t1 = seq![flag_byte] + s2 + s3 + s4 + s5 + rest;
    assert(b =~= s1 + t1);
    lemma_par_ser_str(v.label, t1);
    let o1 = s1.len() as int;
    assert(b[o1] == flag_byte);
    assert(b.skip(o1 + 1) =~= s2 + (s3 + s4 + s5 + rest));
    lemma_par_ser_nat(v.file_paths.len(), s3 + s4 + s5 + rest);
    let d2 = s2.len() as int;
    let o2 = o1 + 1 + d2;
    assert(b.skip(o2) =~= s3 + (s4 + s5 + rest));
    lemma_par_ser_strs(v.file_paths, s4 + s5 + rest);
    let d3 = s3.len() as int;
    let o3 = o2 + d3;
    assert(b.skip(o3) =~= s4 + (s5 + rest));
    lemma_par_ser_nat(v.children.len(), s5 + rest);
    let d4 = s4.len() as int;
    let o4 = o3 + d4;
    assert(b.skip(o4) =~= s5 + rest);
    lemma_par_ser_nodes(v.children, rest);
    assert((flag_byte == 1) == v.is_expanded);
    let parsed = par_node(b)->Some_0;
    assert(parsed.0 =~= v);
    assert(parsed.1 == ser_node(v).len() as int);
}

#[verifier::rlimit(100)]
proof fn lemma_par_ser_nodes(vs: Seq<TagNodeV>, rest: Seq<u8>)
    requires
        nodes_encodable(vs),
    ensures
        par_nodes(ser_nodes(vs) + rest, vs.len()) == Some(
            (vs, ser_nodes(vs).len() as int),
        ),
    decreases vs, 1nat,
{
    if vs.len() == 0 {
        assert(ser_nodes(vs) + rest =~= rest);
        assert(vs =~= Seq::<TagNodeV>::empty());
    } else {
        let b = ser_nodes(vs) + rest;
        let tail = ser_nodes(vs.drop_first()) + rest;
        lemma_par_ser_node(vs[0], tail);
        assert(b =~= ser_node(vs[0]) + tail);
        let u0 = ser_node(vs[0]).len() as int;
        assert(b.skip(u0) =~= tail);
        lemma_par_ser_nodes(vs.drop_first(), rest);
        assert(seq![vs[0]] + vs.drop_first() =~= vs);
    }
}

/// The round-trip law of the codec: decoding an encoded forest gives the
/// forest back, exactly.  Every forest that exists in memory satisfies
/// `forest_encodable`.
pub proof fn lemma_codec_round_trip(f: Seq<TagNodeV>)
    requires
        forest_encodable(f),
    ensures
        spec_decode_forest(spec_encode_forest(f)) == Some(f),
{
    let b = spec_encode_forest(f);
    lemma_par_ser_nat(f.len(), ser_nodes(f));
    assert(b =~= ser_nat(f.len()) + ser_nodes(f));
    let u = ser_nat(f.len()).len() as int;
    assert(b.skip(u) =~= ser_nodes(f) + Seq::<u8>::empty());
    lemma_par_ser_nodes(f, Seq::empty());
    assert(ser_nodes(f) + Seq::<u8>::empty() =~= ser_nodes(f));
}

proof fn lemma_ser_str_list_snoc(ps: Seq<Seq<char>>, x: Seq<char>)
    ensures
        ser_str_list(ps.push(x)) == ser_str_list(ps) + ser_str(x),
        strs_encodable(ps) && str_encodable(x) ==> strs_encodable(ps.push(x)),
    decreases ps.len(),
{
    if ps.len() == 0 {
        assert(ps.push(x)[0] == x);
        assert(ps.push(x).drop_first() =~= Seq::<Seq<char>>::empty());
        assert(ser_str_list(Seq::<Seq<char>>::empty()) == Seq::<u8>::empty());
        assert(strs_encodable(Seq::<Seq<char>>::empty()));
        assert(ser_str_list(ps.push(x)) =~= ser_str_list(ps) + ser_str(x));
    } else {
        lemma_ser_str_list_snoc(ps.drop_first(), x);
        assert(ps.push(x).drop_first() =~= ps.drop_first().push(x));
        assert(ps.push(x)[0] == ps[0]);
        assert(ser_str(ps[0]) + (ser_str_list(ps.drop_first()) + ser_str(x)) =~= (ser_str(ps[0])
            + ser_str_list(ps.drop_first())) + ser_str(x));
    }
}

proof fn lemma_ser_nodes_snoc(vs: Seq<TagNodeV>, x: TagNodeV)
    ensures
        ser_nodes(vs.push(x)) == ser_nodes(vs) + ser_node(x),
        nodes_encodable(vs) && node_encodable(x) ==> nodes_encodable(vs.push(x)),
    decreases vs.len(),
{
    if vs.len() == 0 {
        assert(vs.push(x)[0] == x);
        assert(vs.push(x).drop_first() =~= Seq::<TagNodeV>::empty());
        assert(ser_nodes(Seq::<TagNodeV>::empty()) == Seq::<u8>::empty());
        assert(nodes_encodable(Seq::<TagNodeV>::empty()));
        assert(ser_nodes(vs.push(x)) =~= ser_nodes(vs) + ser_node(x));
    } else {
        lemma_ser_nodes_snoc(vs.drop_first(), x);
        assert(vs.push(x).drop_first() =~= vs.drop_first().push(x));
        assert(vs.push(x)[0] == vs[0]);
        assert(ser_node(vs[0]) + (ser_nodes(vs.drop_first()) + ser_node(x)) =~= (ser_node(vs[0])
            + ser_nodes(vs.drop_first())) + ser_node(x));
    }
}

/// Appends the encoding of one node.
fn write_node(out: &mut Vec<u8>, v: &TagTreeNode)
    ensures
        final(out)@ == old(out)@ + ser_node(v@),
        node_encodable(v@),
    decreases v,
{
    let ghost pre = out@;
    write_str(out, &v.label);
    out.push(
        if v.is_expanded {
            1u8
        } else {
            0u8
        },
    );
    let ghost after_flag = out@;
    write_nat(out, v.file_paths.len() as u64);
    let ghost pv = strs_view(v.file_paths@);
    let ghost mid1 = out@;
    let np = v.file_paths.len();
    let mut i: usize = 0;
    proof {
        assert(pv.take(0) =~= Seq::<Seq<char>>::empty());
        assert(ser_str_list(pv.take(0)) =~= Seq::<u8>::empty());
        assert(out@ =~= mid1 + ser_str_list(pv.take(0)));
    }
    while i < np
        invariant
            0 <= i <= np,
            np == v.file_paths@.len(),
            pv == strs_view(v.file_paths@),
            pv.len() == np,
            out@ == mid1 + ser_str_list(pv.take(i as int)),
            strs_encodable(pv.take(i as int)),
        decreases np - i,
    {
        proof {
            assert(pv[i as int] == v.file_paths@[i as int]@);
        }
        write_str(out, &v.file_paths[i]);
        proof {
            lemma_ser_str_list_snoc(pv.take(i as int), pv[i as int]);
            assert(pv.take(i as int + 1) =~= pv.take(i as int).push(pv[i as int]));
            assert(out@ =~= mid1 + ser_str_list(pv.take(i as int + 1)));
        }
        i = i + 1;
    }
    proof {
        assert(pv.take(np as int) =~= pv);
    }
    write_nat(out, v.children.len() as u64);
    let ghost cv = tag_nodes_view(v.children@);
    let ghost mid2 = out@;
    proof {
        lemma_tag_nodes_view(v.children@);
    }
    let nc = v.children.len();
    let mut k: usize = 0;
    proof {
        assert(cv.take(0) =~= Seq::<TagNodeV>::empty());
        assert(ser_nodes(cv.take(0)) =~= Seq::<u8>::empty());
        assert(out@ =~= mid2 + ser_nodes(cv.take(0)));
    }
    while k < nc
        invariant
            0 <= k <= nc,
            nc == v.children@.len(),
            cv == tag_nodes_view(v.children@),
            cv.len() == nc,
            forall|j: int| 0 <= j < nc ==> #[trigger] cv[j] == tag_node_view(v.children@[j]),
            out@ == mid2 + ser_nodes(cv.take(k as int)),
            nodes_encodable(cv.take(k as int)),
        decreases nc - k,
    {
        proof {
            assert(decreases_to!(v => v.children@[k as int]));
        }
        write_node(out, &v.children[k]);
        proof {
            lemma_ser_nodes_snoc(cv.take(k as int), cv[k as int]);
            assert(cv.take(k as int + 1) =~= cv.take(k as int).push(cv[k as int]));
            assert(out@ =~= mid2 + ser_nodes(cv.take(k as int + 1)));
        }
        k = k + 1;
    }
    proof {
        assert(cv.take(nc as int) =~= cv);
        assert(out@ =~= pre + ser_node(v@));
    }
}

/// Encodes a forest with the crate's stable binary layout.
pub fn encode_tag_forest(roots: &Vec<TagTreeNode>) -> (r: Vec<u8>)
    ensures
        r@ == spec_encode_forest(tag_nodes_view(roots@)),
        forest_encodable(tag_nodes_view(roots@)),
{
    let ghost fv = tag_nodes_view(roots@);
    proof {
        lemma_tag_nodes_view(roots@);
    }
    let mut out: Vec<u8> = Vec::new();
    write_nat(&mut out, roots.len() as u64);
    let ghost mid = out@;
    let n = roots.len();
    let mut i: usize = 0;
    proof {
        assert(fv.take(0) =~= Seq::<TagNodeV>::empty());
        assert(ser_nodes(fv.take(0)) =~= Seq::<u8>::empty());
        assert(out@ =~= mid + ser_nodes(fv.take(0)));
    }
    while i < n
        invariant
            0 <= i <= n,
            n == roots@.len(),
            fv == tag_nodes_view(roots@),
            fv.len() == n,
            forall|j: int| 0 <= j < n ==> #[trigger] fv[j] == tag_node_view(roots@[j]),
            out@ == mid + ser_nodes(fv.take(i as int)),
            nodes_encodable(fv.take(i as int)),
        decreases n - i,
    {
        write_node(&mut out, &roots[i]);
        proof {
            lemma_ser_nodes_snoc(fv.take(i as int), fv[i as int]);
            assert(fv.take(i as int + 1) =~= fv.take(i as int).push(fv[i as int]));
            assert(out@ =~= mid + ser_nodes(fv.take(i as int + 1)));
        }
        i = i + 1;
    }
    proof {
        assert(fv.take(n as int) =~= fv);
        assert(out@ =~= spec_encode_forest(fv));
    }
    out
}

/// Reads a row of strings at `pos`, as [`par_strs`] describes.
fn read_strs(b: &Vec<u8>, pos: usize, count: u64) -> (r: Option<(Vec<String>, usize)>)
    requires
        pos <= b@.len(),
    ensures
        match r {
            Some(p) => pos <= p.1 <= b@.len() && par_strs(b@.skip(pos as int), count as nat)
                == Some((strs_view(p.0@), p.1 - pos)),
            None => par_strs(b@.skip(pos as int), count as nat) is None,
        },
{
    let ghost pos0 = pos;
    let mut acc: Vec<String> = Vec::new();
    let mut cur = pos;
    let mut k: u64 = 0;
    proof {
        assert(strs_view(acc@) =~= Seq::<Seq<char>>::empty());
    }
    while k < count
        invariant
            pos0 == pos,
            pos0 <= cur <= b@.len(),
            0 <= k <= count,
            ({
                let full = par_strs(b@.skip(pos0 as int), count as nat);
                match par_strs(b@.skip(cur as int), (count - k) as nat) {
                    Some(p) => full == Some((strs_view(acc@) + p.0, cur - pos0 + p.1)),
                    None => full is None,
                }
            }),
        decreases count - k,
    {
        let ghost pre = acc@;
        match read_str(b, cur) {
            Some((s0, np)) => {
                let ghost s0v = s0@;
                acc.push(s0);
                proof {
                    assert(b@.skip(cur as int).skip(np - cur) =~= b@.skip(np as int));
                    assert(acc@.drop_last() =~= pre);
                    assert(strs_view(acc@) =~= strs_view(pre).push(s0v));
                    match par_strs(b@.skip(np as int), (count - k - 1) as nat) {
                        Some(pp) => {
                            assert(strs_view(pre) + (seq![s0v] + pp.0) =~= (strs_view(
                                pre,
                            ).push(s0v)) + pp.0);
                        },
                        None => {},
                    }
                }
                cur = np;
                k = k + 1;
            },
            None => {
                return None;
            },
        }
    }
    proof {
        assert(par_strs(b@.skip(cur as int), 0nat) == Some((Seq::<Seq<char>>::empty(), 0int)));
        assert(strs_view(acc@) + Seq::<Seq<char>>::empty() =~= strs_view(acc@));
    }
    Some((acc, cur))
}

/// Reads one node at `pos`, as [`par_node`] describes.
fn read_node(b: &Vec<u8>, pos: usize) -> (r: Option<(TagTreeNode, usize)>)
    requires
        pos <= b@.len(),
    ensures
        match r {
            Some(p) => pos < p.1 <= b@.len() && par_node(b@.skip(pos as int)) == Some(
                (p.0@, p.1 - pos),
            ),
            None => par_node(b@.skip(pos as int)) is None,
        },
    decreases b@.len() - pos, 0nat,
{
    let ghost tail = b@.skip(pos as int);
    match read_str(b, pos) {
        Some((label, o1)) => {
            if o1 >= b.len() {
                return None;
            }
            let flag = b[o1];
            proof {
                assert(tail[o1 - pos] == b@[o1 as int]);
            }
            if flag > 1 {
                return None;
            }
            proof {
                assert(tail.skip((o1 - pos) + 1) =~= b@.skip(o1 as int + 1));
            }
            match read_nat(b, o1 + 1) {
                Some((pcount, a2)) => {
                    proof {
                        assert(tail.skip(a2 - pos) =~= b@.skip(a2 as int));
                    }
                    match read_strs(b, a2, pcount) {
                        Some((paths, a3)) => {
                            proof {
                                assert(tail.skip(a3 - pos) =~= b@.skip(a3 as int));
                            }
                            match read_nat(b, a3) {
                                Some((ccount, a4)) => {
                                    proof {
                                        assert(tail.skip(a4 - pos) =~= b@.skip(a4 as int));
                                    }
                                    match read_nodes(b, a4, ccount) {
                                        Some((children, a5)) => {
                                            let node = TagTreeNode {
                                                label,
                                                children,
                                                file_paths: paths,
                                                is_expanded: flag == 1,
                                            };
                                            proof {
                                                assert(node@ =~= par_node(tail)->Some_0.0);
                                            }
                                            Some((node, a5))
                                        },
                                        None => None,
                                    }
                                },
                                None => None,
                            }
                        },
                        None => None,
                    }
                },
                None => None,
            }
        },
        None => None,
    }
}

/// Reads a row of nodes at `pos`, as [`par_nodes`] describes.
fn read_nodes(b: &Vec<u8>, pos: usize, count: u64) -> (r: Option<(Vec<TagTreeNode>, usize)>)
    requires
        pos <= b@.len(),
    ensures
        match r {
            Some(p) => pos <= p.1 <= b@.len() && par_nodes(b@.skip(pos as int), count as nat)
                == Some((tag_nodes_view(p.0@), p.1 - pos)),
            None => par_nodes(b@.skip(pos as int), count as nat) is None,
        },
    decreases b@.len() - pos, 1nat,
{
    let ghost pos0 = pos;
    let mut acc: Vec<TagTreeNode> = Vec::new();
    let mut cur = pos;
    let mut k: u64 = 0;
    proof {
        assert(tag_nodes_view(acc@) =~= Seq::<TagNodeV>::empty());
    }
    while k < count
        invariant
            pos0 == pos,
            pos0 <= cur <= b@.len(),
            0 <= k <= count,
            ({
                let full = par_nodes(b@.skip(pos0 as int), count as nat);
                match par_nodes(b@.skip(cur as int), (count - k) as nat) {
                    Some(p) => full == Some((tag_nodes_view(acc@) + p.0, cur - pos0 + p.1)),
                    None => full is None,
                }
            }),
        decreases count - k,
    {
        let ghost pre = acc@;
        match read_node(b, cur) {
            Some((n0, np)) => {
                let ghost n0v = n0@;
                acc.push(n0);
                proof {
                    assert(b@.skip(cur as int).skip(np - cur) =~= b@.skip(np as int));
                    assert(acc@.drop_last() =~= pre);
                    assert(tag_nodes_view(acc@) =~= tag_nodes_view(pre).push(n0v));
                    match par_nodes(b@.skip(np as int), (count - k - 1) as nat) {
                        Some(pp) => {
                            assert(tag_nodes_view(pre) + (seq![n0v] + pp.0) =~= (tag_nodes_view(
                                pre,
                            ).push(n0v)) + pp.0);
                        },
                        None => {},
                    }
                }
                cur = np;
                k = k + 1;
            },
            None => {
                return None;
            },
        }
    }
    proof {
        assert(par_nodes(b@.skip(cur as int), 0nat) == Some((Seq::<TagNodeV>::empty(), 0int)));
        assert(tag_nodes_view(acc@) + Seq::<TagNodeV>::empty() =~= tag_nodes_view(acc@));
    }
    Some((acc, cur))
}

/// Decodes a forest from the crate's stable binary layout.  Bytes that no
/// encoding produced — truncated, malformed, or with trailing garbage —
/// give `None`, never an error.
pub fn decode_tag_forest(bytes: &Vec<u8>) -> (r: Option<Vec<TagTreeNode>>)
    ensures
        match r {
            Some(f) => spec_decode_forest(bytes@) == Some(tag_nodes_view(f@)),
            None => spec_decode_forest(bytes@) is None,
        },
{
    proof {
        assert(bytes@.skip(0) =~= bytes@);
    }
    match read_nat(bytes, 0) {
        Some((count, u)) => {
            match read_nodes(bytes, u, count) {
                Some((nodes, end)) => {
                    if end == bytes.len() {
                        Some(nodes)
                    } else {
                        None
                    }
                },
                None => None,
            }
        },
        None => None,
    }
}

} // verus!

